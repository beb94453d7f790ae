//! The dimension codec of the join game packet.

use vstd::prelude::*;

verus! {

/// A dimension of the world, as the codec describes it.
pub struct Dimension {
    pub name: String,
    pub id: i32,
}

impl Dimension {
    /// A dimension with the given name and id.
    pub fn new(name: String, id: i32) -> (r: Self)
        ensures
            r.name@ == name@,
            r.id == id,
    {
        Dimension { name, id }
    }

    /// The name of the dimension.
    pub fn name(&self) -> (r: &str)
        ensures
            r@ == self.name@,
    {
        self.name.as_str()
    }
}

/// The description of one dimension in the codec; besides the dimension's
/// name it always says the same things of it.
pub struct DimensionData {
    pub dimension: Dimension,
}

impl DimensionData {
    /// The description of `dimension`.
    pub fn new(dimension: Dimension) -> (r: Self)
        ensures
            r.dimension == dimension,
    {
        DimensionData { dimension }
    }
}

/// The dimension codec: the descriptions of the dimensions of the world.
pub struct Codec {
    pub dimension: Vec<DimensionData>,
}

impl Codec {
    /// A codec with the given dimension descriptions.
    pub fn new(dimension: Vec<DimensionData>) -> (r: Self)
        ensures
            r.dimension == dimension,
    {
        Codec { dimension }
    }
}

} // verus!
