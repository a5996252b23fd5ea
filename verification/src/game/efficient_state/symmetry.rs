//! The sixteen symmetries of the board and the canonical form of a position.
use vstd::prelude::*;

use crate::game::efficient_state::EfficientPlayField;
use crate::game::efficient_state::mills::as_count;
use crate::game::efficient_state::bits::{
    flip_code, invert_word, lemma_invert_word, lemma_mirror_word, lemma_rotate_word,
    lemma_word_algebra, mirror_word, rotate_word,
};

verus! {

broadcast use crate::game::efficient_state::lemma_board_len;

impl EfficientPlayField {
    /// The board turned by a quarter: on every ring the stone of cell `p` goes to
    /// cell `p + 2`, round the ring.
    pub open spec fn rotated(self) -> EfficientPlayField {
        EfficientPlayField {
            inner: rotate_word(self.inner),
            middle: rotate_word(self.middle),
            outer: rotate_word(self.outer),
        }
    }

    /// The board mirrored at the vertical axis.
    pub open spec fn mirrored(self) -> EfficientPlayField {
        EfficientPlayField {
            inner: mirror_word(self.inner),
            middle: mirror_word(self.middle),
            outer: mirror_word(self.outer),
        }
    }

    /// The board with the inner and the outer ring exchanged.
    pub open spec fn swapped(self) -> EfficientPlayField {
        EfficientPlayField { inner: self.outer, middle: self.middle, outer: self.inner }
    }

    /// The board with white and black exchanged in every cell.
    pub open spec fn inverted(self) -> EfficientPlayField {
        EfficientPlayField {
            inner: invert_word(self.inner),
            middle: invert_word(self.middle),
            outer: invert_word(self.outer),
        }
    }

    /// The board turned by `quarters` quarters, for 0 to 3 of them.
    pub open spec fn turned(self, quarters: int) -> EfficientPlayField {
        if quarters == 1 {
            self.rotated()
        } else if quarters == 2 {
            self.rotated().rotated()
        } else if quarters == 3 {
            self.rotated().rotated().rotated()
        } else {
            self
        }
    }

    /// The image of the board under symmetry number `k`, for `k` from 0 to 15:
    /// the rings are exchanged if `k` is 8 or more, then the board is turned by
    /// `(k / 2) % 4` quarters, then it is mirrored if `k` is odd.
    #[verifier::opaque]
    pub open spec fn image(self, k: int) -> EfficientPlayField {
        let base = if k >= 8 {
            self.swapped()
        } else {
            self
        };
        let turned = base.turned((k / 2) % 4);
        if k % 2 == 1 {
            turned.mirrored()
        } else {
            turned
        }
    }

    /// `self` is one of the sixteen images of `board`.
    pub open spec fn in_orbit_of(self, board: EfficientPlayField) -> bool {
        exists|k: int| 0 <= k < 16 && self == #[trigger] board.image(k)
    }

    /// `self` is an image of `board` and no image of `board` comes after it in
    /// the order of boards.
    pub open spec fn is_canonical_form_of(self, board: EfficientPlayField) -> bool {
        &&& self.in_orbit_of(board)
        &&& forall|k: int| 0 <= k < 16 ==> (#[trigger] board.image(k)).key() <= self.key()
    }

    /// The canonical form: the greatest of the sixteen images.
    pub open spec fn canonical(self) -> EfficientPlayField {
        choose|c: EfficientPlayField| c.is_canonical_form_of(self)
    }

    /// The board is its own canonical form.
    pub open spec fn is_canonical(self) -> bool {
        self.canonical() == self
    }

    /// What a quarter turn does to the cells.
    pub proof fn lemma_rotated_cells(self)
        ensures
            forall|ring: int, pos: int|
                0 <= ring < 3 && 0 <= pos < 8 ==> #[trigger] self.rotated().cell(ring, pos)
                    == self.cell(ring, (pos + 6) % 8),
    {
        assert forall|ring: int, pos: int| 0 <= ring < 3 && 0 <= pos < 8 implies #[trigger]
            self.rotated().cell(ring, pos) == self.cell(ring, (pos + 6) % 8) by {
            self.rotated().lemma_cell(ring, pos);
            self.lemma_cell(ring, (pos + 6) % 8);
            lemma_rotate_word(self.word(ring), pos as u16);
        }
    }

    /// What the mirror does to the cells.
    pub proof fn lemma_mirrored_cells(self)
        ensures
            forall|ring: int, pos: int|
                0 <= ring < 3 && 0 <= pos < 8 ==> #[trigger] self.mirrored().cell(ring, pos)
                    == self.cell(ring, (8 - pos) % 8),
    {
        assert forall|ring: int, pos: int| 0 <= ring < 3 && 0 <= pos < 8 implies #[trigger]
            self.mirrored().cell(ring, pos) == self.cell(ring, (8 - pos) % 8) by {
            self.mirrored().lemma_cell(ring, pos);
            self.lemma_cell(ring, (8 - pos) % 8);
            lemma_mirror_word(self.word(ring), pos as u16);
        }
    }

    /// What the exchange of the rings does to the cells.
    pub proof fn lemma_swapped_cells(self)
        ensures
            forall|ring: int, pos: int|
                0 <= ring < 3 && 0 <= pos < 8 ==> #[trigger] self.swapped().cell(ring, pos)
                    == self.cell(2 - ring, pos),
    {
        assert forall|ring: int, pos: int| 0 <= ring < 3 && 0 <= pos < 8 implies #[trigger]
            self.swapped().cell(ring, pos) == self.cell(2 - ring, pos) by {
            self.swapped().lemma_cell(ring, pos);
            self.lemma_cell(2 - ring, pos);
        }
    }

    /// What the exchange of the colours does to the cells.
    pub proof fn lemma_inverted_cells(self)
        ensures
            forall|i: int|
                0 <= i < 24 ==> #[trigger] self.inverted()@[i] == flip_code(self@[i] as u16),
    {
        assert forall|i: int| 0 <= i < 24 implies #[trigger] self.inverted()@[i] == flip_code(
            self@[i] as u16,
        ) by {
            self.inverted().lemma_cell(i / 8, i % 8);
            self.lemma_cell(i / 8, i % 8);
            lemma_invert_word(self.word(i / 8), (i % 8) as u16);
        }
    }

    /// How the three generators of the symmetries combine.
    pub proof fn lemma_generators(self)
        ensures
            self.rotated().rotated().rotated().rotated() == self,
            self.mirrored().mirrored() == self,
            self.swapped().swapped() == self,
            self.rotated().mirrored() == self.mirrored().rotated().rotated().rotated(),
            self.rotated().rotated().mirrored() == self.mirrored().rotated().rotated(),
            self.rotated().rotated().rotated().mirrored() == self.mirrored().rotated(),
            self.swapped().rotated() == self.rotated().swapped(),
            self.swapped().mirrored() == self.mirrored().swapped(),
    {
        lemma_word_algebra(self.inner);
        lemma_word_algebra(self.middle);
        lemma_word_algebra(self.outer);
    }

    /// Colour inversion is an involution.
    pub proof fn lemma_inverted_twice(self)
        ensures
            self.inverted().inverted() == self,
    {
        lemma_word_algebra(self.inner);
        lemma_word_algebra(self.middle);
        lemma_word_algebra(self.outer);
    }

    /// Colour inversion and the symmetries do not disturb each other.
    pub proof fn lemma_inverted_generators(self)
        ensures
            self.rotated().inverted() == self.inverted().rotated(),
            self.mirrored().inverted() == self.inverted().mirrored(),
            self.swapped().inverted() == self.inverted().swapped(),
    {
        lemma_word_algebra(self.inner);
        lemma_word_algebra(self.middle);
        lemma_word_algebra(self.outer);
    }

    /// The image of the inverted board is the inverted image of the board.
    pub proof fn lemma_inverted_image(self, k: int)
        requires
            0 <= k < 16,
        ensures
            self.image(k).inverted() == self.inverted().image(k),
    {
        reveal(EfficientPlayField::image);
        let base = if k >= 8 {
            self.swapped()
        } else {
            self
        };
        self.lemma_inverted_generators();
        base.lemma_inverted_generators();
        base.rotated().lemma_inverted_generators();
        base.rotated().rotated().lemma_inverted_generators();
        base.turned((k / 2) % 4).lemma_inverted_generators();
    }

    /// What is an image of a board is an image of the board turned, mirrored, or
    /// with its rings exchanged, and the other way round.
    pub proof fn lemma_orbit_of_generators(self, other: EfficientPlayField)
        ensures
            other.in_orbit_of(self) == other.in_orbit_of(self.rotated()),
            other.in_orbit_of(self) == other.in_orbit_of(self.mirrored()),
            other.in_orbit_of(self) == other.in_orbit_of(self.swapped()),
    {
        if other.in_orbit_of(self) {
            let k = choose|k: int| 0 <= k < 16 && other == #[trigger] self.image(k);
            self.lemma_image_of_rotated(k);
            self.lemma_image_of_mirrored(k);
            self.lemma_image_of_swapped(k);
        }
        if other.in_orbit_of(self.rotated()) {
            let k = choose|k: int| 0 <= k < 16 && other == #[trigger] self.rotated().image(k);
            self.lemma_image_of_rotated(k);
        }
        if other.in_orbit_of(self.mirrored()) {
            let k = choose|k: int| 0 <= k < 16 && other == #[trigger] self.mirrored().image(k);
            self.lemma_image_of_mirrored(k);
        }
        if other.in_orbit_of(self.swapped()) {
            let k = choose|k: int| 0 <= k < 16 && other == #[trigger] self.swapped().image(k);
            self.lemma_image_of_swapped(k);
        }
    }

    /// The images of an image of a board are the images of the board.
    pub proof fn lemma_orbit_of_image(self, k: int, other: EfficientPlayField)
        requires
            0 <= k < 16,
        ensures
            other.in_orbit_of(self.image(k)) == other.in_orbit_of(self),
    {
        let base = if k >= 8 {
            self.swapped()
        } else {
            self
        };
        let quarters = (k / 2) % 4;
        let turned = base.turned(quarters);
        assert(self.image(k) == if k % 2 == 1 {
            turned.mirrored()
        } else {
            turned
        }) by {
            reveal(EfficientPlayField::image);
        }
        self.lemma_orbit_of_generators(other);
        base.lemma_orbit_of_generators(other);
        base.rotated().lemma_orbit_of_generators(other);
        base.rotated().rotated().lemma_orbit_of_generators(other);
        assert(other.in_orbit_of(turned) == other.in_orbit_of(self));
        turned.lemma_orbit_of_generators(other);
    }

    /// Boards with the same canonical form are images of each other.
    pub proof fn lemma_same_canonical(self, other: EfficientPlayField)
        requires
            self.canonical() == other.canonical(),
        ensures
            other.in_orbit_of(self),
    {
        self.lemma_canonical();
        other.lemma_canonical();
        let k = choose|k: int| 0 <= k < 16 && self.canonical() == #[trigger] self.image(k);
        let j = choose|j: int| 0 <= j < 16 && other.canonical() == #[trigger] other.image(j);
        assert(other.image(0) == other) by {
            reveal(EfficientPlayField::image);
        }
        assert(other.in_orbit_of(other));
        other.lemma_orbit_of_image(j, other);
        self.lemma_orbit_of_image(k, other);
    }

    /// Canonical boards whose inverted boards have the same canonical form are the
    /// same board.
    pub proof fn lemma_inverted_canonical(self, other: EfficientPlayField)
        requires
            self.is_canonical(),
            other.is_canonical(),
            self.inverted().canonical() == other.inverted().canonical(),
        ensures
            self == other,
    {
        self.inverted().lemma_same_canonical(other.inverted());
        let k = choose|k: int|
            0 <= k < 16 && other.inverted() == #[trigger] self.inverted().image(k);
        self.lemma_inverted_image(k);
        other.lemma_inverted_twice();
        self.image(k).lemma_inverted_twice();
        assert(other == self.image(k));
        self.lemma_canonical_of_image(k);
    }

    /// Boards with the same key are the same board.
    pub proof fn lemma_key_fixes_board(self, other: EfficientPlayField)
        requires
            self.key() == other.key(),
        ensures
            self == other,
    {
    }

    /// The number of the greatest image among the images 0 to `n`.
    pub open spec fn greatest_image(self, n: int) -> int
        decreases n,
    {
        if n <= 0 {
            0
        } else {
            let before = self.greatest_image(n - 1);
            if self.image(n).key() > self.image(before).key() {
                n
            } else {
                before
            }
        }
    }

    proof fn lemma_greatest_image(self, n: int)
        requires
            0 <= n < 16,
        ensures
            0 <= self.greatest_image(n) <= n,
            forall|k: int|
                0 <= k <= n ==> (#[trigger] self.image(k)).key() <= self.image(
                    self.greatest_image(n),
                ).key(),
        decreases n,
    {
        if n > 0 {
            self.lemma_greatest_image(n - 1);
        }
    }

    /// Every board has a canonical form, and only one.
    pub proof fn lemma_canonical(self)
        ensures
            self.canonical().is_canonical_form_of(self),
            forall|c: EfficientPlayField| c.is_canonical_form_of(self) ==> c == self.canonical(),
    {
        self.lemma_greatest_image(15);
        let witness = self.image(self.greatest_image(15));
        assert(witness.in_orbit_of(self));
        assert(witness.is_canonical_form_of(self));
        let canonical = self.canonical();
        assert forall|c: EfficientPlayField| c.is_canonical_form_of(self) implies c
            == canonical by {
            let k = choose|k: int| 0 <= k < 16 && c == #[trigger] self.image(k);
            let j = choose|j: int| 0 <= j < 16 && canonical == #[trigger] self.image(j);
            assert(self.image(k).key() <= canonical.key());
            assert(self.image(j).key() <= c.key());
            c.lemma_key_fixes_board(canonical);
        }
    }

    /// Turning twice is turning by the sum of the quarters; turning commutes with the
    /// exchange of the rings, and passes the mirror as its inverse.
    pub proof fn lemma_turned(self, first: int, second: int)
        requires
            0 <= first < 4,
            0 <= second < 4,
        ensures
            self.turned(first).turned(second) == self.turned((first + second) % 4),
            self.swapped().turned(first) == self.turned(first).swapped(),
            self.mirrored().turned(first) == self.turned((4 - first) % 4).mirrored(),
    {
        self.lemma_generators();
        self.rotated().lemma_generators();
        self.rotated().rotated().lemma_generators();
        self.rotated().rotated().rotated().lemma_generators();
    }

    /// The images of the turned board are the images of the board.
    pub proof fn lemma_image_of_rotated(self, k: int)
        requires
            0 <= k < 16,
        ensures
            self.rotated().image(k) == self.image(8 * (k / 8) + 2 * (((k / 2) % 4 + 1) % 4) + k % 2),
            self.image(k) == self.rotated().image(
                8 * (k / 8) + 2 * (((k / 2) % 4 + 3) % 4) + k % 2,
            ),
    {
        reveal(EfficientPlayField::image);
        let quarters = (k / 2) % 4;
        let base = if k >= 8 {
            self.swapped()
        } else {
            self
        };
        let there = 8 * (k / 8) + 2 * ((quarters + 1) % 4) + k % 2;
        let back = 8 * (k / 8) + 2 * ((quarters + 3) % 4) + k % 2;
        assert((there / 2) % 4 == (quarters + 1) % 4 && there % 2 == k % 2 && (there >= 8) == (k
            >= 8));
        assert((back / 2) % 4 == (quarters + 3) % 4 && back % 2 == k % 2 && (back >= 8) == (k
            >= 8));
        self.lemma_generators();
        self.lemma_turned(1, 0);
        base.lemma_turned(1, quarters);
        base.lemma_turned(1, (quarters + 3) % 4);
        assert(base.turned(1) == base.rotated());
        assert(base.rotated().turned(quarters) == base.turned((quarters + 1) % 4));
        assert(base.rotated().turned((quarters + 3) % 4) == base.turned(quarters));
    }

    /// The images of the mirrored board are the images of the board.
    pub proof fn lemma_image_of_mirrored(self, k: int)
        requires
            0 <= k < 16,
        ensures
            self.mirrored().image(k) == self.image(
                8 * (k / 8) + 2 * ((4 - (k / 2) % 4) % 4) + (1 - k % 2),
            ),
            self.image(k) == self.mirrored().image(
                8 * (k / 8) + 2 * ((4 - (k / 2) % 4) % 4) + (1 - k % 2),
            ),
    {
        reveal(EfficientPlayField::image);
        let quarters = (k / 2) % 4;
        let base = if k >= 8 {
            self.swapped()
        } else {
            self
        };
        let there = 8 * (k / 8) + 2 * ((4 - quarters) % 4) + (1 - k % 2);
        assert((there / 2) % 4 == (4 - quarters) % 4 && there % 2 == 1 - k % 2 && (there >= 8)
            == (k >= 8));
        self.lemma_generators();
        base.lemma_turned(quarters, 0);
        base.lemma_turned((4 - quarters) % 4, 0);
        base.mirrored().lemma_generators();
        base.turned(quarters).lemma_generators();
        base.turned((4 - quarters) % 4).lemma_generators();
        assert(base.mirrored().turned(quarters) == base.turned((4 - quarters) % 4).mirrored());
        assert(base.mirrored().turned((4 - quarters) % 4) == base.turned(quarters).mirrored());
    }

    /// The images of the board with its rings exchanged are the images of the board.
    pub proof fn lemma_image_of_swapped(self, k: int)
        requires
            0 <= k < 16,
        ensures
            self.swapped().image(k) == self.image((k + 8) % 16),
            self.image(k) == self.swapped().image((k + 8) % 16),
    {
        reveal(EfficientPlayField::image);
        let there = (k + 8) % 16;
        assert((there / 2) % 4 == (k / 2) % 4 && there % 2 == k % 2 && (there >= 8) == !(k >= 8));
        self.lemma_generators();
    }

    /// Boards with the same images have the same canonical form.
    pub proof fn lemma_same_orbit(self, other: EfficientPlayField)
        requires
            forall|k: int| 0 <= k < 16 ==> (#[trigger] self.image(k)).in_orbit_of(other),
            forall|k: int| 0 <= k < 16 ==> (#[trigger] other.image(k)).in_orbit_of(self),
        ensures
            self.canonical() == other.canonical(),
    {
        self.lemma_canonical();
        other.lemma_canonical();
        let a = self.canonical();
        let b = other.canonical();
        let ka = choose|k: int| 0 <= k < 16 && a == #[trigger] self.image(k);
        let kb = choose|k: int| 0 <= k < 16 && b == #[trigger] other.image(k);
        assert(self.image(ka).in_orbit_of(other));
        assert(other.image(kb).in_orbit_of(self));
        let ja = choose|j: int| 0 <= j < 16 && a == #[trigger] other.image(j);
        let jb = choose|j: int| 0 <= j < 16 && b == #[trigger] self.image(j);
        assert(other.image(ja).key() <= b.key());
        assert(self.image(jb).key() <= a.key());
        a.lemma_key_fixes_board(b);
    }

    /// A quarter turn leaves the canonical form as it is.
    pub proof fn lemma_canonical_of_rotated(self)
        ensures
            self.rotated().canonical() == self.canonical(),
    {
        let other = self.rotated();
        assert forall|k: int| 0 <= k < 16 implies (#[trigger] other.image(k)).in_orbit_of(
            self,
        ) by {
            self.lemma_image_of_rotated(k);
        }
        assert forall|k: int| 0 <= k < 16 implies (#[trigger] self.image(k)).in_orbit_of(
            other,
        ) by {
            self.lemma_image_of_rotated(k);
        }
        other.lemma_same_orbit(self);
    }

    /// The mirror leaves the canonical form as it is.
    pub proof fn lemma_canonical_of_mirrored(self)
        ensures
            self.mirrored().canonical() == self.canonical(),
    {
        let other = self.mirrored();
        assert forall|k: int| 0 <= k < 16 implies (#[trigger] other.image(k)).in_orbit_of(
            self,
        ) by {
            self.lemma_image_of_mirrored(k);
        }
        assert forall|k: int| 0 <= k < 16 implies (#[trigger] self.image(k)).in_orbit_of(
            other,
        ) by {
            self.lemma_image_of_mirrored(k);
        }
        other.lemma_same_orbit(self);
    }

    /// The exchange of the rings leaves the canonical form as it is.
    pub proof fn lemma_canonical_of_swapped(self)
        ensures
            self.swapped().canonical() == self.canonical(),
    {
        let other = self.swapped();
        assert forall|k: int| 0 <= k < 16 implies (#[trigger] other.image(k)).in_orbit_of(
            self,
        ) by {
            self.lemma_image_of_swapped(k);
        }
        assert forall|k: int| 0 <= k < 16 implies (#[trigger] self.image(k)).in_orbit_of(
            other,
        ) by {
            self.lemma_image_of_swapped(k);
        }
        other.lemma_same_orbit(self);
    }

    /// Canonicalization is a function on orbits: every image of a board has the
    /// canonical form of the board.
    pub proof fn lemma_canonical_of_image(self, k: int)
        requires
            0 <= k < 16,
        ensures
            self.image(k).canonical() == self.canonical(),
    {
        reveal(EfficientPlayField::image);
        let base = if k >= 8 {
            self.swapped()
        } else {
            self
        };
        self.lemma_canonical_of_swapped();
        base.lemma_canonical_of_rotated();
        base.rotated().lemma_canonical_of_rotated();
        base.rotated().rotated().lemma_canonical_of_rotated();
        base.turned((k / 2) % 4).lemma_canonical_of_mirrored();
    }

    /// Canonicalization is idempotent.
    pub proof fn lemma_canonical_idempotent(self)
        ensures
            self.canonical().canonical() == self.canonical(),
    {
        self.lemma_canonical();
        let k = choose|k: int| 0 <= k < 16 && self.canonical() == #[trigger] self.image(k);
        self.lemma_canonical_of_image(k);
    }

    /// How many cells of ring `ring` hold `code`.
    pub open spec fn ring_count(self, ring: int, code: int) -> int {
        as_count(self.cell(ring, 0) == code) + as_count(self.cell(ring, 1) == code) + as_count(
            self.cell(ring, 2) == code,
        ) + as_count(self.cell(ring, 3) == code) + as_count(self.cell(ring, 4) == code) + as_count(
            self.cell(ring, 5) == code,
        ) + as_count(self.cell(ring, 6) == code) + as_count(self.cell(ring, 7) == code)
    }

    /// The cells that hold `code` among the first eight more of the view are those
    /// of the next ring.
    proof fn lemma_count_ring(self, ring: int, code: int)
        requires
            0 <= ring < 3,
        ensures
            self.count_upto(code, 8 * ring + 8) == self.count_upto(code, 8 * ring)
                + self.ring_count(ring, code),
    {
        let n = 8 * ring;
        assert(self.count_upto(code, n + 1) == self.count_upto(code, n) + as_count(
            self.cell(ring, 0) == code,
        ));
        assert(self.count_upto(code, n + 2) == self.count_upto(code, n + 1) + as_count(
            self.cell(ring, 1) == code,
        ));
        assert(self.count_upto(code, n + 3) == self.count_upto(code, n + 2) + as_count(
            self.cell(ring, 2) == code,
        ));
        assert(self.count_upto(code, n + 4) == self.count_upto(code, n + 3) + as_count(
            self.cell(ring, 3) == code,
        ));
        assert(self.count_upto(code, n + 5) == self.count_upto(code, n + 4) + as_count(
            self.cell(ring, 4) == code,
        ));
        assert(self.count_upto(code, n + 6) == self.count_upto(code, n + 5) + as_count(
            self.cell(ring, 5) == code,
        ));
        assert(self.count_upto(code, n + 7) == self.count_upto(code, n + 6) + as_count(
            self.cell(ring, 6) == code,
        ));
        assert(self.count_upto(code, n + 8) == self.count_upto(code, n + 7) + as_count(
            self.cell(ring, 7) == code,
        ));
    }

    /// The cells that hold `code` are those of the three rings.
    pub proof fn lemma_count_by_rings(self, code: int)
        ensures
            self.count(code) == self.ring_count(0, code) + self.ring_count(1, code)
                + self.ring_count(2, code),
    {
        self.lemma_count_ring(0, code);
        self.lemma_count_ring(1, code);
        self.lemma_count_ring(2, code);
    }

    /// A board is free of the code `0b11` where no cell is counted for it.
    pub proof fn lemma_wf_by_count(self)
        ensures
            self.wf() == (self.count(3) == 0),
    {
        self.lemma_wf_by_count_upto(24);
    }

    proof fn lemma_wf_by_count_upto(self, n: int)
        requires
            0 <= n <= 24,
        ensures
            0 <= self.count_upto(3, n),
            (forall|i: int| 0 <= i < n ==> #[trigger] self@[i] != 3) == (self.count_upto(3, n) == 0),
        decreases n,
    {
        if n > 0 {
            self.lemma_wf_by_count_upto(n - 1);
            if self.count_upto(3, n) == 0 {
                assert forall|i: int| 0 <= i < n implies #[trigger] self@[i] != 3 by {}
            }
        }
    }

    /// A quarter turn moves the stones and changes none.
    pub proof fn lemma_rotated_count(self, code: int)
        ensures
            self.rotated().count(code) == self.count(code),
    {
        self.lemma_count_by_rings(code);
        self.rotated().lemma_count_by_rings(code);
        self.lemma_ring_count_rotated(0, code);
        self.lemma_ring_count_rotated(1, code);
        self.lemma_ring_count_rotated(2, code);
    }

    proof fn lemma_ring_count_rotated(self, ring: int, code: int)
        requires
            0 <= ring < 3,
        ensures
            self.rotated().ring_count(ring, code) == self.ring_count(ring, code),
    {
        self.lemma_rotated_cells();
        let turned = self.rotated();
        assert(turned.cell(ring, 0) == self.cell(ring, 6));
        assert(turned.cell(ring, 1) == self.cell(ring, 7));
        assert(turned.cell(ring, 2) == self.cell(ring, 0));
        assert(turned.cell(ring, 3) == self.cell(ring, 1));
        assert(turned.cell(ring, 4) == self.cell(ring, 2));
        assert(turned.cell(ring, 5) == self.cell(ring, 3));
        assert(turned.cell(ring, 6) == self.cell(ring, 4));
        assert(turned.cell(ring, 7) == self.cell(ring, 5));
    }

    /// The mirror moves the stones and changes none.
    pub proof fn lemma_mirrored_count(self, code: int)
        ensures
            self.mirrored().count(code) == self.count(code),
    {
        self.lemma_count_by_rings(code);
        self.mirrored().lemma_count_by_rings(code);
        self.lemma_ring_count_mirrored(0, code);
        self.lemma_ring_count_mirrored(1, code);
        self.lemma_ring_count_mirrored(2, code);
    }

    proof fn lemma_ring_count_mirrored(self, ring: int, code: int)
        requires
            0 <= ring < 3,
        ensures
            self.mirrored().ring_count(ring, code) == self.ring_count(ring, code),
    {
        self.lemma_mirrored_cells();
        let mirror = self.mirrored();
        assert(mirror.cell(ring, 0) == self.cell(ring, 0));
        assert(mirror.cell(ring, 1) == self.cell(ring, 7));
        assert(mirror.cell(ring, 2) == self.cell(ring, 6));
        assert(mirror.cell(ring, 3) == self.cell(ring, 5));
        assert(mirror.cell(ring, 4) == self.cell(ring, 4));
        assert(mirror.cell(ring, 5) == self.cell(ring, 3));
        assert(mirror.cell(ring, 6) == self.cell(ring, 2));
        assert(mirror.cell(ring, 7) == self.cell(ring, 1));
    }

    /// The exchange of the rings moves the stones and changes none.
    pub proof fn lemma_swapped_count(self, code: int)
        ensures
            self.swapped().count(code) == self.count(code),
    {
        self.lemma_count_by_rings(code);
        self.swapped().lemma_count_by_rings(code);
        self.lemma_swapped_cells();
        assert forall|ring: int| 0 <= ring < 3 implies #[trigger] self.swapped().ring_count(
            ring,
            code,
        ) == self.ring_count(2 - ring, code) by {}
    }

    /// Every image of a board holds as many stones of each colour as the board, and
    /// is free of the code `0b11` where the board is.
    pub proof fn lemma_image_counts(self, k: int)
        requires
            0 <= k < 16,
        ensures
            self.image(k).count(1) == self.count(1),
            self.image(k).count(2) == self.count(2),
            self.image(k).wf() == self.wf(),
    {
        self.lemma_image_count(k, 1);
        self.lemma_image_count(k, 2);
        self.lemma_image_count(k, 3);
        self.lemma_wf_by_count();
        self.image(k).lemma_wf_by_count();
    }

    proof fn lemma_image_count(self, k: int, code: int)
        requires
            0 <= k < 16,
        ensures
            self.image(k).count(code) == self.count(code),
    {
        reveal(EfficientPlayField::image);
        let base = if k >= 8 {
            self.swapped()
        } else {
            self
        };
        self.lemma_swapped_count(code);
        base.lemma_rotated_count(code);
        base.rotated().lemma_rotated_count(code);
        base.rotated().rotated().lemma_rotated_count(code);
        base.turned((k / 2) % 4).lemma_mirrored_count(code);
    }

    /// The canonical form of a board holds as many stones of each colour as the
    /// board, and is free of the code `0b11` where the board is.
    pub proof fn lemma_canonical_counts(self)
        ensures
            self.canonical().count(1) == self.count(1),
            self.canonical().count(2) == self.count(2),
            self.canonical().wf() == self.wf(),
    {
        self.lemma_canonical();
        let k = choose|k: int| 0 <= k < 16 && self.canonical() == #[trigger] self.image(k);
        self.lemma_image_counts(k);
    }

    /// Turns the board by `amount` quarters.
    pub fn rotate_self_right(&mut self, amount: u32)
        ensures
            *final(self) == old(self).turned(amount as int % 4),
    {
        let quarters = amount % 4;
        let mut done: u32 = 0;
        while done < quarters
            invariant
                done <= quarters < 4,
                *self == old(self).turned(done as int),
            decreases quarters - done,
        {
            self.inner = (self.inner << 4u16) | (self.inner >> 12u16);
            self.middle = (self.middle << 4u16) | (self.middle >> 12u16);
            self.outer = (self.outer << 4u16) | (self.outer >> 12u16);
            done += 1;
        }
    }

    /// Exchanges the inner and the outer ring.
    pub fn swap_rings(&mut self)
        ensures
            *final(self) == old(self).swapped(),
    {
        let inner = self.inner;
        self.inner = self.outer;
        self.outer = inner;
    }

    /// Mirrors the board at the vertical axis.
    pub fn mirror_on_y(&mut self)
        ensures
            *final(self) == old(self).mirrored(),
    {
        self.inner = mirror_ring(self.inner);
        self.middle = mirror_ring(self.middle);
        self.outer = mirror_ring(self.outer);
    }

    /// The board with white and black exchanged in every cell.
    pub fn invert_playfields_stone_colors(&self) -> (inverted: EfficientPlayField)
        ensures
            inverted == self.inverted(),
            forall|i: int| 0 <= i < 24 ==> #[trigger] inverted@[i] == flip_code(self@[i] as u16),
            self.wf() ==> inverted.wf(),
    {
        let inverted = EfficientPlayField {
            inner: ((self.inner & 0x5555u16) << 1u16) | ((self.inner & 0xaaaau16) >> 1u16),
            middle: ((self.middle & 0x5555u16) << 1u16) | ((self.middle & 0xaaaau16) >> 1u16),
            outer: ((self.outer & 0x5555u16) << 1u16) | ((self.outer & 0xaaaau16) >> 1u16),
        };
        proof {
            assert(inverted == self.inverted());
            self.lemma_inverted_cells();
            self.lemma_view();
            if self.wf() {
                assert forall|i: int| 0 <= i < 24 implies #[trigger] inverted@[i] != 3 by {
                    assert(self@[i] != 3);
                    assert(inverted@[i] == flip_code(self@[i] as u16));
                }
            }
        }
        inverted
    }

    /// The number of the image after `swaps` exchanges of the rings and `turns`
    /// quarter turns.
    pub open spec fn plain_image(swaps: int, turns: int) -> int {
        8 * swaps + 2 * turns
    }

    /// The number of the image that is the mirrored board after `swaps` exchanges of
    /// the rings and `turns` quarter turns: the mirror turns a quarter turn round.
    pub open spec fn mirror_image(swaps: int, turns: int) -> int {
        8 * swaps + 2 * ((4 - turns) % 4) + 1
    }

    /// Turns the board by a quarter.
    fn rotate_once(&mut self)
        ensures
            *final(self) == old(self).rotated(),
    {
        self.inner = (self.inner << 4u16) | (self.inner >> 12u16);
        self.middle = (self.middle << 4u16) | (self.middle >> 12u16);
        self.outer = (self.outer << 4u16) | (self.outer >> 12u16);
    }

    /// The canonical form of the board: the greatest of its sixteen images in the
    /// order of boards. The board itself is left as it was.
    pub fn get_canonical_form(&mut self) -> (canonical: EfficientPlayField)
        ensures
            *final(self) == *old(self),
            canonical == old(self).canonical(),
            canonical.is_canonical_form_of(*old(self)),
            canonical.wf() == old(self).wf(),
            canonical.count(1) == old(self).count(1),
            canonical.count(2) == old(self).count(2),
    {
        let ghost start = *self;
        let mut best = EfficientPlayField::new();
        let mut plain = *self;
        let mut mirror = *self;
        mirror.mirror_on_y();
        let mut swaps: usize = 0;
        while swaps < 2
            invariant
                swaps <= 2,
                *self == start,
                plain == (if swaps == 1 {
                    start.swapped()
                } else {
                    start
                }),
                mirror == plain.mirrored(),
                forall|k: int|
                    0 <= k < 8 * swaps ==> (#[trigger] start.image(k)).key() <= best.key(),
                best.key() == 0 || best.in_orbit_of(start),
            decreases 2 - swaps,
        {
            let ghost base = plain;
            let mut turns: usize = 0;
            while turns < 4
                invariant
                    turns <= 4,
                    swaps < 2,
                    base == (if swaps == 1 {
                        start.swapped()
                    } else {
                        start
                    }),
                    plain == base.turned(turns as int),
                    mirror == base.mirrored().turned(turns as int),
                    forall|k: int|
                        0 <= k < 8 * swaps ==> (#[trigger] start.image(k)).key() <= best.key(),
                    forall|j: int|
                        0 <= j < turns ==> (#[trigger] start.image(
                            Self::plain_image(swaps as int, j),
                        )).key() <= best.key(),
                    forall|j: int|
                        0 <= j < turns ==> (#[trigger] start.image(
                            Self::mirror_image(swaps as int, j),
                        )).key() <= best.key(),
                    best.key() == 0 || best.in_orbit_of(start),
                decreases 4 - turns,
            {
                let ghost before = best;
                let ghost first = Self::plain_image(swaps as int, turns as int);
                let ghost second = Self::mirror_image(swaps as int, turns as int);
                proof {
                    let back = (4 - turns) % 4;
                    assert((first / 2) % 4 == turns && first % 2 == 0 && (first >= 8) == (swaps
                        == 1));
                    assert((second / 2) % 4 == back && second % 2 == 1 && (second >= 8) == (swaps
                        == 1));
                    if turns < 4 {
                        base.lemma_turned(turns as int, 1);
                        base.mirrored().lemma_turned(turns as int, 1);
                        base.lemma_turned(back as int, 0);
                        base.mirrored().lemma_turned(turns as int, 0);
                    }
                    assert(start.image(first) == plain && start.image(second) == mirror) by {
                        reveal(EfficientPlayField::image);
                    }
                    base.lemma_generators();
                    base.mirrored().lemma_generators();
                }
                if plain.is_greater_than(&best) {
                    best = plain;
                }
                if mirror.is_greater_than(&best) {
                    best = mirror;
                }
                plain.rotate_once();
                mirror.rotate_once();
                proof {
                    assert(before.key() <= best.key());
                    assert(best == before || best == start.image(first) || best == start.image(
                        second,
                    ));
                    assert forall|k: int| 0 <= k < 8 * swaps implies (#[trigger] start.image(
                        k,
                    )).key() <= best.key() by {
                        assert(start.image(k).key() <= before.key());
                    }
                    assert forall|j: int| 0 <= j < turns + 1 implies (#[trigger] start.image(
                        Self::plain_image(swaps as int, j),
                    )).key() <= best.key() by {
                        if j < turns {
                            assert(start.image(Self::plain_image(swaps as int, j)).key()
                                <= before.key());
                        }
                    }
                    assert forall|j: int| 0 <= j < turns + 1 implies (#[trigger] start.image(
                        Self::mirror_image(swaps as int, j),
                    )).key() <= best.key() by {
                        if j < turns {
                            assert(start.image(Self::mirror_image(swaps as int, j)).key()
                                <= before.key());
                        }
                    }
                }
                turns += 1;
            }
            proof {
                assert forall|k: int| 0 <= k < 8 * swaps + 8 implies (#[trigger] start.image(
                    k,
                )).key() <= best.key() by {
                    if k >= 8 * swaps {
                        let offset = k - 8 * swaps;
                        if offset % 2 == 0 {
                            let j = offset / 2;
                            assert(k == Self::plain_image(swaps as int, j));
                        } else {
                            let j = (4 - (offset - 1) / 2) % 4;
                            assert(k == Self::mirror_image(swaps as int, j));
                        }
                    }
                }
                start.lemma_generators();
                base.lemma_generators();
            }
            plain.swap_rings();
            mirror.swap_rings();
            swaps += 1;
        }
        proof {
            if !best.in_orbit_of(start) {
                assert(start.image(0) == start) by {
                    reveal(EfficientPlayField::image);
                }
                assert(start.image(0).key() <= best.key());
                best.lemma_key_fixes_board(start.image(0));
            }
            start.lemma_canonical();
            start.lemma_canonical_counts();
        }
        best
    }

    /// The canonical form that the board shares with `other_play_field`, where the
    /// two are images of each other, else `None`. Both boards are left as they were.
    pub fn in_same_equivalence_class_as(
        &mut self,
        other_play_field: &mut EfficientPlayField,
    ) -> (shared: Option<EfficientPlayField>)
        ensures
            *final(self) == *old(self),
            *final(other_play_field) == *old(other_play_field),
            shared == if old(self).canonical() == old(other_play_field).canonical() {
                Some(old(self).canonical())
            } else {
                None
            },
            shared is Some <==> old(other_play_field).in_orbit_of(*old(self)),
    {
        let canonical_form_1 = self.get_canonical_form();
        let canonical_form_2 = other_play_field.get_canonical_form();
        proof {
            if self.canonical() == other_play_field.canonical() {
                self.lemma_same_canonical(*other_play_field);
            }
            if other_play_field.in_orbit_of(*self) {
                let k = choose|k: int| 0 <= k < 16 && *other_play_field == #[trigger] self.image(k);
                self.lemma_canonical_of_image(k);
            }
        }
        if canonical_form_1 == canonical_form_2 {
            Some(canonical_form_1)
        } else {
            None
        }
    }

    /// Whether the board comes after `other` in the order of boards.
    pub fn is_greater_than(&self, other: &EfficientPlayField) -> (greater: bool)
        ensures
            greater == (self.key() > other.key()),
    {
        if self.inner != other.inner {
            self.inner > other.inner
        } else if self.middle != other.middle {
            self.middle > other.middle
        } else {
            self.outer > other.outer
        }
    }
}

/// The ring word mirrored at the vertical axis.
fn mirror_ring(w: u16) -> (mirrored: u16)
    ensures
        mirrored == mirror_word(w),
{
    (w & 0x0303u16) | ((w & 0x000cu16) << 12u16) | ((w & 0x0030u16) << 8u16) | ((w & 0x00c0u16)
        << 4u16) | ((w & 0x0c00u16) >> 4u16) | ((w & 0x3000u16) >> 8u16) | ((w & 0xc000u16)
        >> 12u16)
}

} // verus!
