//! Facts about the two-bit cells of a ring word, settled by the bit-vector solver.
use vstd::prelude::*;

verus! {

/// The code in cell `pos` of the ring word `w`; cell 0 is the two lowest bits.
pub open spec fn slot(w: u16, pos: u16) -> u16 {
    (w >> (pos * 2) as u16) & 3u16
}

/// The ring word `w` with cell `pos` replaced by `code`.
pub open spec fn with_slot(w: u16, pos: u16, code: u16) -> u16 {
    (w & !(3u16 << (pos * 2) as u16)) | (code << (pos * 2) as u16)
}

pub proof fn lemma_slot_of_with_slot(w: u16, pos: u16, code: u16, other: u16)
    by (bit_vector)
    requires
        pos < 8,
        other < 8,
        code < 4,
    ensures
        slot(with_slot(w, pos, code), other) == if other == pos { code } else { slot(w, other) },
        slot(w, other) < 4,
{
}

pub proof fn lemma_slot_of_zero(pos: u16)
    by (bit_vector)
    requires
        pos < 8,
    ensures
        slot(0, pos) == 0,
{
}

pub proof fn lemma_slots_fix_word(a: u16, b: u16)
    by (bit_vector)
    requires
        slot(a, 0) == slot(b, 0),
        slot(a, 1) == slot(b, 1),
        slot(a, 2) == slot(b, 2),
        slot(a, 3) == slot(b, 3),
        slot(a, 4) == slot(b, 4),
        slot(a, 5) == slot(b, 5),
        slot(a, 6) == slot(b, 6),
        slot(a, 7) == slot(b, 7),
    ensures
        a == b,
{
}

/// The ring word turned by a quarter of the ring: the stone of cell `p` goes to
/// cell `p + 2`, round the ring.
pub open spec fn rotate_word(w: u16) -> u16 {
    (w << 4u16) | (w >> 12u16)
}

/// The ring word mirrored at the vertical axis: cells 0 and 4 stay, and cell `p`
/// changes places with cell `8 - p`.
pub open spec fn mirror_word(w: u16) -> u16 {
    (w & 0x0303u16) | ((w & 0x000cu16) << 12u16) | ((w & 0x0030u16) << 8u16) | ((w & 0x00c0u16)
        << 4u16) | ((w & 0x0c00u16) >> 4u16) | ((w & 0x3000u16) >> 8u16) | ((w & 0xc000u16)
        >> 12u16)
}

/// The ring word with the codes of white and black exchanged in every cell.
pub open spec fn invert_word(w: u16) -> u16 {
    ((w & 0x5555u16) << 1u16) | ((w & 0xaaaau16) >> 1u16)
}

/// The code of the other colour; the empty code and `0b11` stay.
pub open spec fn flip_code(code: u16) -> u16 {
    if code == 1 {
        2
    } else if code == 2 {
        1
    } else {
        code
    }
}

pub proof fn lemma_rotate_word(w: u16, pos: u16)
    by (bit_vector)
    requires
        pos < 8,
    ensures
        slot(rotate_word(w), pos) == slot(w, ((pos + 6) % 8) as u16),
{
}

pub proof fn lemma_mirror_word(w: u16, pos: u16)
    by (bit_vector)
    requires
        pos < 8,
    ensures
        slot(mirror_word(w), pos) == slot(w, ((8 - pos) % 8) as u16),
{
}

pub proof fn lemma_invert_word(w: u16, pos: u16)
    by (bit_vector)
    requires
        pos < 8,
    ensures
        slot(invert_word(w), pos) == flip_code(slot(w, pos)),
{
}

pub proof fn lemma_word_algebra(w: u16)
    by (bit_vector)
    ensures
        rotate_word(rotate_word(rotate_word(rotate_word(w)))) == w,
        mirror_word(mirror_word(w)) == w,
        mirror_word(rotate_word(w)) == rotate_word(rotate_word(rotate_word(mirror_word(w)))),
        mirror_word(rotate_word(rotate_word(w))) == rotate_word(rotate_word(mirror_word(w))),
        mirror_word(rotate_word(rotate_word(rotate_word(w)))) == rotate_word(mirror_word(w)),
        invert_word(invert_word(w)) == w,
        invert_word(rotate_word(w)) == rotate_word(invert_word(w)),
        invert_word(mirror_word(w)) == mirror_word(invert_word(w)),
{
}

/// The three cells round the even position `center` of the ring word `w`, as the six
/// lowest bits of a word: the cell before `center` lowest, the cell after it highest.
pub open spec fn window(w: u16, center: u16) -> u16 {
    let shift = ((((center + 7) % 8) as u16) * 2) as u16;
    ((w >> shift) | (w << (16 - shift) as u16)) & 63u16
}

pub proof fn lemma_window(w: u16, center: u16)
    by (bit_vector)
    requires
        center < 8,
        center % 2 == 0,
    ensures
        window(w, center) == 21 <==> slot(w, ((center + 7) % 8) as u16) == 1 && slot(w, center)
            == 1 && slot(w, ((center + 1) % 8) as u16) == 1,
        window(w, center) == 42 <==> slot(w, ((center + 7) % 8) as u16) == 2 && slot(w, center)
            == 2 && slot(w, ((center + 1) % 8) as u16) == 2,
{
}

/// 1 where cell `pos` of the ring word `w` holds `code`, else 0.
pub open spec fn holds(w: u16, pos: u16, code: u16) -> u16 {
    if slot(w, pos) == code {
        1
    } else {
        0
    }
}

/// How many cells of the ring word `w` hold `code`.
pub open spec fn holds_in_word(w: u16, code: u16) -> u16 {
    (holds(w, 0, code) + holds(w, 1, code) + holds(w, 2, code) + holds(w, 3, code) + holds(
        w,
        4,
        code,
    ) + holds(w, 5, code) + holds(w, 6, code) + holds(w, 7, code)) as u16
}

/// No black stone of the three ring words has an empty cell beside it.
pub open spec fn black_blocked(inner: u16, middle: u16, outer: u16) -> bool {
    &&& slot(inner, 0) == 2 ==> slot(inner, 1) != 0 && slot(inner, 7) != 0 && slot(middle, 0) != 0
    &&& slot(inner, 1) == 2 ==> slot(inner, 2) != 0 && slot(inner, 0) != 0
    &&& slot(inner, 2) == 2 ==> slot(inner, 3) != 0 && slot(inner, 1) != 0 && slot(middle, 2) != 0
    &&& slot(inner, 3) == 2 ==> slot(inner, 4) != 0 && slot(inner, 2) != 0
    &&& slot(inner, 4) == 2 ==> slot(inner, 5) != 0 && slot(inner, 3) != 0 && slot(middle, 4) != 0
    &&& slot(inner, 5) == 2 ==> slot(inner, 6) != 0 && slot(inner, 4) != 0
    &&& slot(inner, 6) == 2 ==> slot(inner, 7) != 0 && slot(inner, 5) != 0 && slot(middle, 6) != 0
    &&& slot(inner, 7) == 2 ==> slot(inner, 0) != 0 && slot(inner, 6) != 0
    &&& slot(middle, 0) == 2 ==> slot(middle, 1) != 0 && slot(middle, 7) != 0 && slot(inner, 0) != 0 && slot(outer, 0) != 0
    &&& slot(middle, 1) == 2 ==> slot(middle, 2) != 0 && slot(middle, 0) != 0
    &&& slot(middle, 2) == 2 ==> slot(middle, 3) != 0 && slot(middle, 1) != 0 && slot(inner, 2) != 0 && slot(outer, 2) != 0
    &&& slot(middle, 3) == 2 ==> slot(middle, 4) != 0 && slot(middle, 2) != 0
    &&& slot(middle, 4) == 2 ==> slot(middle, 5) != 0 && slot(middle, 3) != 0 && slot(inner, 4) != 0 && slot(outer, 4) != 0
    &&& slot(middle, 5) == 2 ==> slot(middle, 6) != 0 && slot(middle, 4) != 0
    &&& slot(middle, 6) == 2 ==> slot(middle, 7) != 0 && slot(middle, 5) != 0 && slot(inner, 6) != 0 && slot(outer, 6) != 0
    &&& slot(middle, 7) == 2 ==> slot(middle, 0) != 0 && slot(middle, 6) != 0
    &&& slot(outer, 0) == 2 ==> slot(outer, 1) != 0 && slot(outer, 7) != 0 && slot(middle, 0) != 0
    &&& slot(outer, 1) == 2 ==> slot(outer, 2) != 0 && slot(outer, 0) != 0
    &&& slot(outer, 2) == 2 ==> slot(outer, 3) != 0 && slot(outer, 1) != 0 && slot(middle, 2) != 0
    &&& slot(outer, 3) == 2 ==> slot(outer, 4) != 0 && slot(outer, 2) != 0
    &&& slot(outer, 4) == 2 ==> slot(outer, 5) != 0 && slot(outer, 3) != 0 && slot(middle, 4) != 0
    &&& slot(outer, 5) == 2 ==> slot(outer, 6) != 0 && slot(outer, 4) != 0
    &&& slot(outer, 6) == 2 ==> slot(outer, 7) != 0 && slot(outer, 5) != 0 && slot(middle, 6) != 0
    &&& slot(outer, 7) == 2 ==> slot(outer, 0) != 0 && slot(outer, 6) != 0
}

pub proof fn lemma_enclosing_stones(inner: u16, middle: u16, outer: u16)
    by (bit_vector)
    requires
        black_blocked(inner, middle, outer),
        holds_in_word(inner, 3) + holds_in_word(middle, 3) + holds_in_word(outer, 3) == 0,
        4 <= holds_in_word(inner, 2) + holds_in_word(middle, 2) + holds_in_word(outer, 2) <= 9,
    ensures
        holds_in_word(inner, 1) + holds_in_word(middle, 1) + holds_in_word(outer, 1) >= 3,
{
}

} // verus!
