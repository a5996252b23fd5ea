//! The mill oracle: how many mills pass through a cell.
use vstd::prelude::*;

use crate::game::PlayerColor;
use crate::game::efficient_state::EfficientPlayField;
use crate::game::efficient_state::bits::{lemma_window, window};

verus! {

broadcast use crate::game::efficient_state::lemma_board_len;

/// Which lines a mill query looks at.
#[derive(Debug, Clone, Copy, PartialEq, Eq, Structural)]
pub enum DirectionToCheck {
    /// The lines along the ring, filled by either colour.
    OnRing,
    /// The lines along the ring and the line across the rings, filled by
    /// `player_color`.
    OnAndAcrossRings { player_color: PlayerColor },
}

/// 1 for `true`, 0 for `false`.
pub open spec fn as_count(holds: bool) -> int {
    if holds {
        1
    } else {
        0
    }
}

impl EfficientPlayField {
    /// The ring line centred at the even position `center` of ring `ring` is filled
    /// with `code`: the cell before `center`, `center` and the cell after it.
    pub open spec fn ring_line(self, ring: int, center: int, code: int) -> bool {
        &&& self.cell(ring, (center + 7) % 8) == code
        &&& self.cell(ring, center) == code
        &&& self.cell(ring, (center + 1) % 8) == code
    }

    /// The line across the rings at the even position `pos` is filled with `code`.
    pub open spec fn cross_line(self, pos: int, code: int) -> bool {
        &&& self.cell(0, pos) == code
        &&& self.cell(1, pos) == code
        &&& self.cell(2, pos) == code
    }

    /// How many ring lines through the cell are filled with `code`. An even
    /// position is the centre of one ring line, an odd position the end of two.
    #[verifier::opaque]
    pub open spec fn ring_mills(self, ring: int, pos: int, code: int) -> int {
        if pos % 2 == 0 {
            as_count(self.ring_line(ring, pos, code))
        } else {
            as_count(self.ring_line(ring, (pos + 7) % 8, code)) + as_count(
                self.ring_line(ring, (pos + 1) % 8, code),
            )
        }
    }

    /// How many lines through the cell are filled with `code`, along the ring and
    /// across the rings.
    #[verifier::opaque]
    pub open spec fn mills(self, ring: int, pos: int, code: int) -> int {
        self.ring_mills(ring, pos, code) + as_count(pos % 2 == 0 && self.cross_line(pos, code))
    }

    /// The number of mills through the cell that `direction` asks for.
    pub open spec fn mill_count_through(
        self,
        ring: int,
        pos: int,
        direction: DirectionToCheck,
    ) -> int {
        match direction {
            DirectionToCheck::OnRing => self.ring_mills(ring, pos, 1) + self.ring_mills(
                ring,
                pos,
                2,
            ),
            DirectionToCheck::OnAndAcrossRings { player_color } => self.mills(
                ring,
                pos,
                player_color.code(),
            ),
        }
    }

    /// Sums of positions round a ring of eight cells.
    proof fn lemma_turn_positions(pos: int)
        requires
            0 <= pos < 8,
        ensures
            ((pos + 2) % 8 + 6) % 8 == pos,
            (((pos + 2) % 8 + 7) % 8 + 6) % 8 == (pos + 7) % 8,
            (((pos + 2) % 8 + 1) % 8 + 6) % 8 == (pos + 1) % 8,
            ((pos + 2) % 8) % 2 == pos % 2,
            (pos + 2) % 8 == ((pos + 1) % 8 + 1) % 8,
            ((pos + 7) % 8 + 2) % 8 == ((pos + 2) % 8 + 7) % 8,
            ((pos + 1) % 8 + 2) % 8 == ((pos + 2) % 8 + 1) % 8,
    {
    }

    /// Positions round a ring of eight cells, seen in the mirror.
    proof fn lemma_mirror_positions(pos: int)
        requires
            0 <= pos < 8,
        ensures
            (8 - (8 - pos) % 8) % 8 == pos,
            (8 - ((8 - pos) % 8 + 7) % 8) % 8 == (pos + 1) % 8,
            (8 - ((8 - pos) % 8 + 1) % 8) % 8 == (pos + 7) % 8,
            ((8 - pos) % 8) % 2 == pos % 2,
            (8 - (pos + 7) % 8) % 8 == ((8 - pos) % 8 + 1) % 8,
            (8 - (pos + 1) % 8) % 8 == ((8 - pos) % 8 + 7) % 8,
    {
    }

    proof fn lemma_ring_line_rotated(self, ring: int, center: int, code: int)
        requires
            0 <= ring < 3,
            0 <= center < 8,
        ensures
            self.rotated().ring_line(ring, (center + 2) % 8, code) == self.ring_line(
                ring,
                center,
                code,
            ),
    {
        self.lemma_rotated_cells();
        Self::lemma_turn_positions(center);
        let image = self.rotated();
        assert(image.cell(ring, ((center + 2) % 8 + 7) % 8) == self.cell(ring, (center + 7) % 8));
        assert(image.cell(ring, (center + 2) % 8) == self.cell(ring, center));
        assert(image.cell(ring, ((center + 2) % 8 + 1) % 8) == self.cell(ring, (center + 1) % 8));
    }

    /// A quarter turn of the board and of the cell leaves the number of mills
    /// through the cell as it is.
    pub proof fn lemma_mill_count_rotated(self, ring: int, pos: int, direction: DirectionToCheck)
        requires
            0 <= ring < 3,
            0 <= pos < 8,
        ensures
            self.rotated().mill_count_through(ring, (pos + 2) % 8, direction)
                == self.mill_count_through(ring, pos, direction),
    {
        reveal(EfficientPlayField::ring_mills);
        reveal(EfficientPlayField::mills);
        self.lemma_rotated_cells();
        Self::lemma_turn_positions(pos);
        let image = self.rotated();
        let there = (pos + 2) % 8;
        self.lemma_ring_line_rotated(ring, pos, 1);
        self.lemma_ring_line_rotated(ring, pos, 2);
        self.lemma_ring_line_rotated(ring, (pos + 7) % 8, 1);
        self.lemma_ring_line_rotated(ring, (pos + 7) % 8, 2);
        self.lemma_ring_line_rotated(ring, (pos + 1) % 8, 1);
        self.lemma_ring_line_rotated(ring, (pos + 1) % 8, 2);
        assert(image.ring_mills(ring, there, 1) == self.ring_mills(ring, pos, 1));
        assert(image.ring_mills(ring, there, 2) == self.ring_mills(ring, pos, 2));
        assert(image.cell(0, there) == self.cell(0, pos));
        assert(image.cell(1, there) == self.cell(1, pos));
        assert(image.cell(2, there) == self.cell(2, pos));
        assert(image.cross_line(there, 1) == self.cross_line(pos, 1));
        assert(image.cross_line(there, 2) == self.cross_line(pos, 2));
    }

    proof fn lemma_ring_line_mirrored(self, ring: int, center: int, code: int)
        requires
            0 <= ring < 3,
            0 <= center < 8,
        ensures
            self.mirrored().ring_line(ring, (8 - center) % 8, code) == self.ring_line(
                ring,
                center,
                code,
            ),
    {
        self.lemma_mirrored_cells();
        Self::lemma_mirror_positions(center);
        let image = self.mirrored();
        assert(image.cell(ring, ((8 - center) % 8 + 7) % 8) == self.cell(ring, (center + 1) % 8));
        assert(image.cell(ring, (8 - center) % 8) == self.cell(ring, center));
        assert(image.cell(ring, ((8 - center) % 8 + 1) % 8) == self.cell(ring, (center + 7) % 8));
    }

    /// The mirror of the board and of the cell leaves the number of mills through
    /// the cell as it is.
    pub proof fn lemma_mill_count_mirrored(self, ring: int, pos: int, direction: DirectionToCheck)
        requires
            0 <= ring < 3,
            0 <= pos < 8,
        ensures
            self.mirrored().mill_count_through(ring, (8 - pos) % 8, direction)
                == self.mill_count_through(ring, pos, direction),
    {
        reveal(EfficientPlayField::ring_mills);
        reveal(EfficientPlayField::mills);
        self.lemma_mirrored_cells();
        Self::lemma_mirror_positions(pos);
        let image = self.mirrored();
        let there = (8 - pos) % 8;
        self.lemma_ring_line_mirrored(ring, pos, 1);
        self.lemma_ring_line_mirrored(ring, pos, 2);
        self.lemma_ring_line_mirrored(ring, (pos + 7) % 8, 1);
        self.lemma_ring_line_mirrored(ring, (pos + 7) % 8, 2);
        self.lemma_ring_line_mirrored(ring, (pos + 1) % 8, 1);
        self.lemma_ring_line_mirrored(ring, (pos + 1) % 8, 2);
        assert(image.ring_mills(ring, there, 1) == self.ring_mills(ring, pos, 1));
        assert(image.ring_mills(ring, there, 2) == self.ring_mills(ring, pos, 2));
        assert(image.cell(0, there) == self.cell(0, pos));
        assert(image.cell(1, there) == self.cell(1, pos));
        assert(image.cell(2, there) == self.cell(2, pos));
        assert(image.cross_line(there, 1) == self.cross_line(pos, 1));
        assert(image.cross_line(there, 2) == self.cross_line(pos, 2));
    }

    proof fn lemma_ring_line_swapped(self, ring: int, center: int, code: int)
        requires
            0 <= ring < 3,
            0 <= center < 8,
        ensures
            self.swapped().ring_line(2 - ring, center, code) == self.ring_line(
                ring,
                center,
                code,
            ),
    {
        self.lemma_swapped_cells();
        let image = self.swapped();
        assert(image.cell(2 - ring, (center + 7) % 8) == self.cell(ring, (center + 7) % 8));
        assert(image.cell(2 - ring, center) == self.cell(ring, center));
        assert(image.cell(2 - ring, (center + 1) % 8) == self.cell(ring, (center + 1) % 8));
    }

    /// The exchange of the inner and the outer ring, on the board and for the cell,
    /// leaves the number of mills through the cell as it is.
    pub proof fn lemma_mill_count_swapped(self, ring: int, pos: int, direction: DirectionToCheck)
        requires
            0 <= ring < 3,
            0 <= pos < 8,
        ensures
            self.swapped().mill_count_through(2 - ring, pos, direction)
                == self.mill_count_through(ring, pos, direction),
    {
        reveal(EfficientPlayField::ring_mills);
        reveal(EfficientPlayField::mills);
        self.lemma_swapped_cells();
        let image = self.swapped();
        let there = pos;
        self.lemma_ring_line_swapped(ring, pos, 1);
        self.lemma_ring_line_swapped(ring, pos, 2);
        self.lemma_ring_line_swapped(ring, (pos + 7) % 8, 1);
        self.lemma_ring_line_swapped(ring, (pos + 7) % 8, 2);
        self.lemma_ring_line_swapped(ring, (pos + 1) % 8, 1);
        self.lemma_ring_line_swapped(ring, (pos + 1) % 8, 2);
        assert(image.ring_mills(2 - ring, there, 1) == self.ring_mills(ring, pos, 1));
        assert(image.ring_mills(2 - ring, there, 2) == self.ring_mills(ring, pos, 2));
        assert(image.cell(2 - 0, there) == self.cell(0, pos));
        assert(image.cell(2 - 1, there) == self.cell(1, pos));
        assert(image.cell(2 - 2, there) == self.cell(2, pos));
        assert(image.cross_line(there, 1) == self.cross_line(pos, 1));
        assert(image.cross_line(there, 2) == self.cross_line(pos, 2));
    }

    /// Through a cell pass no more than two mills of a colour.
    pub proof fn lemma_mills_range(self, ring: int, pos: int, code: int)
        ensures
            0 <= self.mills(ring, pos, code) <= 2,
            0 <= self.ring_mills(ring, pos, code) <= 2,
    {
        reveal(EfficientPlayField::ring_mills);
        reveal(EfficientPlayField::mills);
    }

    /// Through a cell pass no more than two mills.
    pub proof fn lemma_mill_count_range(self, ring: int, pos: int, direction: DirectionToCheck)
        requires
            0 <= ring < 3,
            0 <= pos < 8,
        ensures
            0 <= self.mill_count_through(ring, pos, direction) <= 2,
    {
        reveal(EfficientPlayField::ring_mills);
        reveal(EfficientPlayField::mills);
    }

    /// The cell to which symmetry number `k` takes the cell at `ring` and `pos`:
    /// its ring and its position there.
    pub open spec fn image_of_cell(k: int, ring: int, pos: int) -> (int, int) {
        let ring = if k >= 8 {
            2 - ring
        } else {
            ring
        };
        let pos = (pos + 2 * ((k / 2) % 4)) % 8;
        if k % 2 == 1 {
            (ring, (8 - pos) % 8)
        } else {
            (ring, pos)
        }
    }

    /// The number of mills through a cell is the same on every image of the board,
    /// through the image of the cell.
    pub proof fn lemma_mill_count_image(
        self,
        k: int,
        ring: int,
        pos: int,
        direction: DirectionToCheck,
    )
        requires
            0 <= k < 16,
            0 <= ring < 3,
            0 <= pos < 8,
        ensures
            self.image(k).mill_count_through(
                Self::image_of_cell(k, ring, pos).0,
                Self::image_of_cell(k, ring, pos).1,
                direction,
            ) == self.mill_count_through(ring, pos, direction),
    {
        let quarters = (k / 2) % 4;
        let base = if k >= 8 {
            self.swapped()
        } else {
            self
        };
        let base_ring = if k >= 8 {
            2 - ring
        } else {
            ring
        };
        let turned = base.turned(quarters);
        let turned_pos = (pos + 2 * quarters) % 8;
        assert(self.image(k) == if k % 2 == 1 {
            turned.mirrored()
        } else {
            turned
        }) by {
            reveal(EfficientPlayField::image);
        }
        if k >= 8 {
            self.lemma_mill_count_swapped(ring, pos, direction);
        }
        base.lemma_mill_count_turned(quarters, base_ring, pos, direction);
        if k % 2 == 1 {
            turned.lemma_mill_count_mirrored(base_ring, turned_pos, direction);
        }
    }

    /// Turning the board and the cell by the same number of quarters leaves the
    /// number of mills through the cell as it is.
    pub proof fn lemma_mill_count_turned(
        self,
        quarters: int,
        ring: int,
        pos: int,
        direction: DirectionToCheck,
    )
        requires
            0 <= quarters < 4,
            0 <= ring < 3,
            0 <= pos < 8,
        ensures
            self.turned(quarters).mill_count_through(ring, (pos + 2 * quarters) % 8, direction)
                == self.mill_count_through(ring, pos, direction),
    {
        let once = self.rotated();
        let twice = once.rotated();
        let first = (pos + 2) % 8;
        let second = (first + 2) % 8;
        let third = (second + 2) % 8;
        assert(second == (pos + 4) % 8 && third == (pos + 6) % 8);
        if quarters >= 1 {
            self.lemma_mill_count_rotated(ring, pos, direction);
        }
        if quarters >= 2 {
            once.lemma_mill_count_rotated(ring, first, direction);
        }
        if quarters >= 3 {
            twice.lemma_mill_count_rotated(ring, second, direction);
        }
    }

    /// The window round `center` shows whether the ring line there is filled.
    proof fn lemma_ring_line(self, ring: int, center: int)
        requires
            0 <= ring < 3,
            0 <= center < 8,
            center % 2 == 0,
        ensures
            self.ring_line(ring, center, 1) <==> window(self.word(ring), center as u16) == 21,
            self.ring_line(ring, center, 2) <==> window(self.word(ring), center as u16) == 42,
    {
        self.lemma_cell(ring, (center + 7) % 8);
        self.lemma_cell(ring, center);
        self.lemma_cell(ring, (center + 1) % 8);
        lemma_window(self.word(ring), center as u16);
    }

    /// Whether the ring line centred at the even position `center` is filled, by
    /// white (`21`) or by black (`42`) as `pattern` says.
    fn ring_line_filled(&self, ring_index: usize, center: u32, pattern: u16) -> (filled: bool)
        requires
            ring_index < 3,
            center < 8,
            center % 2 == 0,
            pattern == 21 || pattern == 42,
        ensures
            filled == self.ring_line(ring_index as int, center as int, pattern as int / 21),
    {
        let w = self.ring_word(ring_index);
        let shift = (((center + 7) % 8) * 2) as u16;
        proof {
            self.lemma_ring_line(ring_index as int, center as int);
        }
        ((w >> shift) | (w << (16 - shift))) & 63u16 == pattern
    }

    /// How many ring lines through the cell are filled by the colour of `pattern`.
    fn ring_mill_count(&self, ring_index: usize, field_index: u32, pattern: u16) -> (count: u32)
        requires
            ring_index < 3,
            field_index < 8,
            pattern == 21 || pattern == 42,
        ensures
            count == self.ring_mills(ring_index as int, field_index as int, pattern as int / 21),
            count <= 2,
            field_index % 2 == 0 ==> count <= 1,
    {
        reveal(EfficientPlayField::ring_mills);
        reveal(EfficientPlayField::mills);
        let mut count: u32 = 0;
        if field_index % 2 == 0 {
            if self.ring_line_filled(ring_index, field_index, pattern) {
                count += 1;
            }
        } else {
            if self.ring_line_filled(ring_index, (field_index + 7) % 8, pattern) {
                count += 1;
            }
            if self.ring_line_filled(ring_index, (field_index + 1) % 8, pattern) {
                count += 1;
            }
        }
        count
    }

    /// The number of mills through the cell at `ring_index` and `field_index`: with
    /// `OnRing` the filled lines along the ring, of either colour; with
    /// `OnAndAcrossRings` the lines filled by its colour, along the ring and, at an
    /// even position, across the rings.
    pub fn get_mill_count(
        &self,
        ring_index: usize,
        field_index: u32,
        direction: DirectionToCheck,
    ) -> (count: u32)
        requires
            ring_index < 3,
            field_index < 8,
        ensures
            count == self.mill_count_through(ring_index as int, field_index as int, direction),
            count <= 2,
    {
        reveal(EfficientPlayField::ring_mills);
        reveal(EfficientPlayField::mills);
        match direction {
            DirectionToCheck::OnRing => {
                let white = self.ring_mill_count(ring_index, field_index, 21);
                let black = self.ring_mill_count(ring_index, field_index, 42);
                proof {
                    // One line cannot be filled by both colours.
                    assert(white + black <= 2);
                }
                white + black
            },
            DirectionToCheck::OnAndAcrossRings { player_color } => {
                let code = player_color.to_code();
                let pattern: u16 = match player_color {
                    PlayerColor::White => 21,
                    PlayerColor::Black => 42,
                };
                let mut count = self.ring_mill_count(ring_index, field_index, pattern);
                if field_index % 2 == 0 {
                    if self.get_field_state_at(0, field_index) == code && self.get_field_state_at(
                        1,
                        field_index,
                    ) == code && self.get_field_state_at(2, field_index) == code {
                        count += 1;
                    }
                }
                count
            },
        }
    }
}

} // verus!
