//! Short lists of cells, kept in a `SmallVec` that holds up to 24 of them without
//! a heap allocation.
use vstd::prelude::*;

use smallvec::SmallVec;

use crate::game::efficient_state::FieldPos;

verus! {

/// A list of cells, in a `SmallVec` of the `smallvec` crate.
#[verifier::external_body]
pub struct FieldList {
    list: SmallVec<[FieldPos; 24]>,
}

/// The cells that a list holds, in their order.
pub uninterp spec fn fields_of(list: FieldList) -> Seq<FieldPos>;

/// Calls `SmallVec::new`: a list that holds nothing.
#[verifier::external_body]
pub(crate) fn fields_new() -> (list: FieldList)
    ensures
        fields_of(list) == Seq::<FieldPos>::empty(),
{
    FieldList { list: SmallVec::new() }
}

/// Calls `SmallVec::push`: `pos` goes to the end of the list, behind what it held.
#[verifier::external_body]
pub(crate) fn fields_push(list: &mut FieldList, pos: FieldPos)
    ensures
        fields_of(*final(list)) == fields_of(*old(list)).push(pos),
{
    list.list.push(pos)
}

/// Calls `SmallVec::len`: the number of cells in the list.
#[verifier::external_body]
pub(crate) fn fields_len(list: &FieldList) -> (len: usize)
    ensures
        len == fields_of(*list).len(),
{
    list.list.len()
}

/// Indexes the list, which `SmallVec` hands on to its slice: the cell at place
/// `index`. An index beyond the list would panic.
#[verifier::external_body]
pub(crate) fn fields_get(list: &FieldList, index: usize) -> (pos: FieldPos)
    requires
        index < fields_of(*list).len(),
    ensures
        pos == fields_of(*list)[index as int],
{
    list.list[index]
}

impl FieldList {
    /// The number of cells in the list.
    pub fn len(&self) -> (len: usize)
        ensures
            len == fields_of(*self).len(),
    {
        fields_len(self)
    }

    /// The cells of the list, in their order.
    pub fn to_vec(&self) -> (cells: Vec<FieldPos>)
        ensures
            cells@ == fields_of(*self),
    {
        let mut cells: Vec<FieldPos> = Vec::new();
        let amount = fields_len(self);
        let mut index: usize = 0;
        while index < amount
            invariant
                amount == fields_of(*self).len(),
                index <= amount,
                cells@ == fields_of(*self).subrange(0, index as int),
            decreases amount - index,
        {
            cells.push(fields_get(self, index));
            index += 1;
            assert(cells@ =~= fields_of(*self).subrange(0, index as int));
        }
        assert(cells@ =~= fields_of(*self));
        cells
    }
}

} // verus!
