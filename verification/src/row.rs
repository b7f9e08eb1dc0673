//! The tabular data model: one row of the dataset.

use vstd::prelude::*;

verus! {

/// One observation of the dataset. Rows are immutable once loaded and their
/// identity is positional: `id` carries no uniqueness constraint. Sales are
/// integer-valued.
pub struct DataRow {
    pub id: u32,
    pub category: String,
    pub sales: i64,
    pub region: String,
}

impl DataRow {
    /// A value-equal copy of the row.
    pub fn duplicate(&self) -> (r: DataRow)
        ensures
            r == *self,
    {
        DataRow {
            id: self.id,
            category: self.category.clone(),
            sales: self.sales,
            region: self.region.clone(),
        }
    }
}

} // verus!
