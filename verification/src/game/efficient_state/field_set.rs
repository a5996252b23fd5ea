//! A set of boards, kept as their 48-bit keys in a hash set with the FNV hasher.
use vstd::prelude::*;
use vstd::set_lib::*;

use fnv::FnvHashSet;

use crate::game::efficient_state::EfficientPlayField;

verus! {

broadcast use crate::game::efficient_state::lemma_board_len;

/// The hasher of the `fnv` crate.
#[verifier::external_type_specification]
#[verifier::external_body]
pub struct ExFnvHasher(fnv::FnvHasher);

/// The hash builder that makes a hasher by `Default`.
#[verifier::external_type_specification]
#[verifier::external_body]
#[verifier::reject_recursive_types(H)]
pub struct ExBuildHasherDefault<H>(std::hash::BuildHasherDefault<H>);

/// Calls `HashSet::insert` on a set with the FNV hasher. That hasher is a pure
/// function of the bytes written to it, so the set holds a key exactly if it was
/// inserted: after the call the set holds `key` besides what it held, and the
/// result says whether `key` is new.
#[verifier::external_body]
fn keys_insert(keys: &mut FnvHashSet<u64>, key: u64) -> (fresh: bool)
    ensures
        final(keys)@ == old(keys)@.insert(key),
        fresh == !old(keys)@.contains(key),
{
    keys.insert(key)
}

/// Calls `HashSet::contains` on a set with the FNV hasher: whether the set holds
/// `key`.
#[verifier::external_body]
fn keys_contains(keys: &FnvHashSet<u64>, key: u64) -> (found: bool)
    ensures
        found == keys@.contains(key),
{
    keys.contains(&key)
}

/// Calls `HashSet::len` on a set with the FNV hasher: the number of keys that the
/// set holds.
#[verifier::external_body]
fn keys_len(keys: &FnvHashSet<u64>) -> (len: usize)
    ensures
        len == keys@.len(),
{
    keys.len()
}

/// The number of keys: every key is below it.
pub const KEY_LIMIT: u64 = 0x1_0000_0000_0000;

/// The board with the key `key`.
pub open spec fn board_of_key(key: u64) -> EfficientPlayField {
    EfficientPlayField {
        inner: (key / 0x1_0000_0000) as u16,
        middle: ((key / 0x1_0000) % 0x1_0000) as u16,
        outer: (key % 0x1_0000) as u16,
    }
}

impl EfficientPlayField {
    /// The key of the board as a machine word.
    pub fn set_key(&self) -> (key: u64)
        ensures
            key == self.key(),
            key < KEY_LIMIT,
            board_of_key(key) == *self,
    {
        (self.inner as u64) * 0x1_0000_0000 + (self.middle as u64) * 0x1_0000 + (self.outer as u64)
    }

    /// The board with the key `key`.
    pub fn from_key(key: u64) -> (board: EfficientPlayField)
        requires
            key < KEY_LIMIT,
        ensures
            board == board_of_key(key),
            board.key() == key,
    {
        EfficientPlayField {
            inner: (key / 0x1_0000_0000) as u16,
            middle: ((key / 0x1_0000) % 0x1_0000) as u16,
            outer: (key % 0x1_0000) as u16,
        }
    }
}

/// A set of boards.
pub struct PlayFieldSet {
    pub keys: FnvHashSet<u64>,
}

impl View for PlayFieldSet {
    type V = Set<EfficientPlayField>;

    /// The boards whose keys the set holds.
    open spec fn view(&self) -> Set<EfficientPlayField> {
        Set::new(|board: EfficientPlayField| self.keys@.contains(board.key() as u64))
    }
}

impl PlayFieldSet {
    /// The set holds finitely many keys, each the key of a board.
    pub open spec fn wf(self) -> bool {
        &&& self.keys@.finite()
        &&& forall|key: u64| self.keys@.contains(key) ==> key < KEY_LIMIT
    }

    /// The boards of a set are as many as its keys, and no more than there are
    /// keys at all.
    pub proof fn lemma_len(self)
        requires
            self.wf(),
        ensures
            self@.finite(),
            self@.len() == self.keys@.len(),
            self@.len() <= KEY_LIMIT,
    {
        let to_board = |key: u64| board_of_key(key);
        assert forall|a: u64, b: u64|
            self.keys@.contains(a) && self.keys@.contains(b) && #[trigger] to_board(a)
                == #[trigger] to_board(b) implies a == b by {
            assert(board_of_key(a).key() == a);
            assert(board_of_key(b).key() == b);
        }
        assert(vstd::relations::injective_on(to_board, self.keys@));
        assert forall|board: EfficientPlayField| self.keys@.map(to_board).contains(board)
            == self@.contains(board) by {
            if self.keys@.map(to_board).contains(board) {
                let key = choose|key: u64| self.keys@.contains(key) && to_board(key) == board;
                assert(board_of_key(key).key() == key);
            }
            if self@.contains(board) {
                let key = board.key() as u64;
                assert(self.keys@.contains(key) && to_board(key) == board);
            }
        }
        assert(self.keys@.map(to_board) =~= self@);
        lemma_map_size(self.keys@, self@, to_board);
        <u64 as FiniteRange>::range_properties(0, KEY_LIMIT);
        assert(self.keys@.subset_of(Set::<u64>::range(0, KEY_LIMIT)));
        lemma_len_subset(self.keys@, Set::<u64>::range(0, KEY_LIMIT));
    }

    /// The empty set.
    pub fn new() -> (set: PlayFieldSet)
        ensures
            set@ == Set::<EfficientPlayField>::empty(),
            set.wf(),
    {
        let set = PlayFieldSet { keys: FnvHashSet::default() };
        assert(set@ =~= Set::<EfficientPlayField>::empty());
        set
    }

    /// Puts `board` into the set, and says whether it is new there.
    pub fn insert(&mut self, board: EfficientPlayField) -> (fresh: bool)
        requires
            old(self).wf(),
        ensures
            final(self).wf(),
            final(self)@ == old(self)@.insert(board),
            fresh == !old(self)@.contains(board),
    {
        let key = board.set_key();
        let fresh = keys_insert(&mut self.keys, key);
        proof {
            assert forall|other: EfficientPlayField|
                self@.contains(other) == old(self)@.insert(board).contains(other) by {
                if other.key() == board.key() {
                    other.lemma_key_fixes_board(board);
                }
            }
            assert(self@ =~= old(self)@.insert(board));
        }
        fresh
    }

    /// Whether the set holds `board`.
    pub fn contains(&self, board: &EfficientPlayField) -> (found: bool)
        ensures
            found == self@.contains(*board),
    {
        keys_contains(&self.keys, board.set_key())
    }

    /// The number of boards in the set.
    pub fn len(&self) -> (len: usize)
        requires
            self.wf(),
        ensures
            len == self@.len(),
    {
        proof {
            self.lemma_len();
        }
        keys_len(&self.keys)
    }
}

/// The canonical forms of the boards that were added, each once, in the order in
/// which they came first.
pub struct CanonicalCollection {
    pub seen: PlayFieldSet,
    pub boards: Vec<EfficientPlayField>,
}

impl View for CanonicalCollection {
    type V = Set<EfficientPlayField>;

    /// The boards of the collection.
    open spec fn view(&self) -> Set<EfficientPlayField> {
        self.seen@
    }
}

impl CanonicalCollection {
    /// The list holds each board of the set once, and every board is a canonical
    /// form.
    pub open spec fn wf(self) -> bool {
        &&& self.seen.wf()
        &&& self.boards@.no_duplicates()
        &&& forall|board: EfficientPlayField|
            #![trigger self.seen@.contains(board)]
            #![trigger self.boards@.contains(board)]
            self.seen@.contains(board) <==> self.boards@.contains(board)
        &&& forall|board: EfficientPlayField| #[trigger]
            self.seen@.contains(board) ==> board.is_canonical()
    }

    /// The empty collection.
    pub fn new() -> (collection: CanonicalCollection)
        ensures
            collection.wf(),
            collection@ == Set::<EfficientPlayField>::empty(),
            collection.boards@.len() == 0,
    {
        CanonicalCollection { seen: PlayFieldSet::new(), boards: Vec::new() }
    }

    /// Adds the canonical form of `board`, and says whether it is new in the
    /// collection.
    pub fn add(&mut self, board: EfficientPlayField) -> (fresh: bool)
        requires
            old(self).wf(),
        ensures
            final(self).wf(),
            final(self)@ == old(self)@.insert(board.canonical()),
            fresh == !old(self)@.contains(board.canonical()),
            final(self).boards@ == if fresh {
                old(self).boards@.push(board.canonical())
            } else {
                old(self).boards@
            },
    {
        let mut copy = board;
        let canonical = copy.get_canonical_form();
        proof {
            board.lemma_canonical_idempotent();
        }
        let fresh = self.seen.insert(canonical);
        if fresh {
            proof {
                crate::game::efficient_state::rules::lemma_push_contains(self.boards@, canonical);
            }
            self.boards.push(canonical);
        }
        fresh
    }

    /// The number of boards in the collection.
    pub fn len(&self) -> (len: usize)
        requires
            self.wf(),
        ensures
            len == self@.len(),
            len == self.boards@.len(),
    {
        proof {
            self.seen.lemma_len();
            self.boards@.unique_seq_to_set();
            assert(self.boards@.to_set() =~= self.seen@);
        }
        self.boards.len()
    }

    /// Whether the collection holds `board`.
    pub fn contains(&self, board: &EfficientPlayField) -> (found: bool)
        ensures
            found == self@.contains(*board),
    {
        self.seen.contains(board)
    }
}

} // verus!
