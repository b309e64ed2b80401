use std::ops::Range;

use vstd::prelude::*;

verus! {

/// An entry of the top-level acceleration structure: a triangle, an
/// instance, or a slot whose owner has been removed. `G` is the geometry the
/// acceleration structure is built from (a center and bounds).
#[derive(Clone, Copy, Debug)]
pub enum Primitive<G> {
    Triangle { geometry: G, triangle_id: u32, material_id: u32 },
    Instance { geometry: G, node_id: u32 },
    Killed,
}

impl<G: Copy> Primitive<G> {
    /// The geometry of a live primitive; a killed one has none.
    pub fn geometry(&self) -> (r: Option<G>)
        ensures
            r == (match *self {
                Primitive::Triangle { geometry, .. } => Some(geometry),
                Primitive::Instance { geometry, .. } => Some(geometry),
                Primitive::Killed => None,
            }),
    {
        match self {
            Primitive::Triangle { geometry, .. } | Primitive::Instance { geometry, .. } => {
                Some(*geometry)
            },
            Primitive::Killed => None,
        }
    }
}

/// Index of a primitive inside the top-level acceleration structure.
#[derive(Clone, Copy, Debug, PartialEq, Eq, Structural)]
pub struct PrimitiveId(pub u32);

impl PrimitiveId {
    pub fn new(id: u32) -> (r: Self)
        ensures
            r.0 == id,
    {
        Self(id)
    }

    pub fn get(&self) -> (r: u32)
        ensures
            r == self.0,
    {
        self.0
    }
}

/// `id` read as an `i32`, moved by `offset`, and read back as a `u32`.
pub open spec fn shifted(id: u32, offset: i32) -> u32 {
    (id as i32 + offset) as u32
}

/// `id` can be moved by `offset` without leaving the range of `i32`.
pub open spec fn can_shift(id: u32, offset: i32) -> bool {
    i32::MIN <= id as i32 + offset <= i32::MAX
}

/// A half-open range of primitive ids, `start..end`.
#[derive(Clone, Copy, Debug)]
pub struct PrimitivesRef {
    pub start: PrimitiveId,
    pub end: PrimitiveId,
}

impl PrimitivesRef {
    /// The range that holds `id` alone.
    pub fn single(id: PrimitiveId) -> (r: Self)
        requires
            id.0 < u32::MAX,
        ensures
            r.start.0 == id.0,
            r.end.0 == id.0 + 1,
    {
        Self::range(id, PrimitiveId::new(id.get() + 1))
    }

    pub fn range(start: PrimitiveId, end: PrimitiveId) -> (r: Self)
        ensures
            r.start == start,
            r.end == end,
    {
        Self { start, end }
    }

    pub fn start(&self) -> (r: PrimitiveId)
        ensures
            r == self.start,
    {
        self.start
    }

    pub fn end(&self) -> (r: PrimitiveId)
        ensures
            r == self.end,
    {
        self.end
    }

    /// Moves both ends by `offset`; each end is read as an `i32`, shifted,
    /// and stored back as the `u32` with the same bits.
    pub fn offset(&mut self, offset: i32)
        requires
            can_shift(old(self).start.0, offset),
            can_shift(old(self).end.0, offset),
        ensures
            final(self).start.0 == shifted(old(self).start.0, offset),
            final(self).end.0 == shifted(old(self).end.0, offset),
    {
        self.start = PrimitiveId::new((self.start.get() as i32 + offset) as u32);
        self.end = PrimitiveId::new((self.end.get() as i32 + offset) as u32);
    }

    /// The range of slot indices this range covers.
    pub open spec fn as_range_spec(&self) -> Range<usize> {
        Range { start: self.start.0 as usize, end: self.end.0 as usize }
    }

    pub fn as_range(&self) -> (r: Range<usize>)
        ensures
            r == self.as_range_spec(),
    {
        let start = self.start.get() as usize;
        let end = self.end.get() as usize;

        start..end
    }

    pub fn len(&self) -> (r: usize)
        requires
            self.start.0 <= self.end.0,
        ensures
            r == self.end.0 - self.start.0,
    {
        (self.end.get() - self.start.get()) as usize
    }
}

impl Default for PrimitivesRef {
    fn default() -> (r: Self)
        ensures
            r.start.0 == 0,
            r.end.0 == 0,
    {
        Self::range(PrimitiveId::new(0), PrimitiveId::new(0))
    }
}

/// Moving an id by `offset` and then by `-offset` gives the id back.
pub proof fn law_offset_is_undone(id: u32, offset: i32)
    requires
        can_shift(id, offset),
        offset > i32::MIN,
    ensures
        can_shift(shifted(id, offset), (-offset) as i32),
        shifted(shifted(id, offset), (-offset) as i32) == id,
{
    let v: i32 = (id as i32 + offset) as i32;
    assert(((v as u32) as i32) == v) by (bit_vector);
    assert(((id as i32) as u32) == id) by (bit_vector);
}

/// Moving a range keeps its length while neither end wraps past zero or
/// `i32::MAX`.
pub proof fn law_offset_keeps_len(start: u32, end: u32, offset: i32)
    requires
        start <= end <= i32::MAX,
        0 <= start + offset,
        end + offset <= i32::MAX,
    ensures
        can_shift(start, offset),
        can_shift(end, offset),
        shifted(start, offset) <= shifted(end, offset),
        shifted(end, offset) - shifted(start, offset) == end - start,
{
    assert((start as i32) as int == start) by (bit_vector)
        requires start <= 0x7fff_ffffu32;
    assert((end as i32) as int == end) by (bit_vector)
        requires end <= 0x7fff_ffffu32;
    let a: i32 = (start + offset) as i32;
    let b: i32 = (end + offset) as i32;
    assert(a as u32 as int == a) by (bit_vector)
        requires a >= 0i32;
    assert(b as u32 as int == b) by (bit_vector)
        requires b >= 0i32;
}

} // verus!
