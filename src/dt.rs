//! Request and response shapes of the paginated table views.

use vstd::prelude::*;

verus! {

/// A search box: its text and whether it is a pattern.
#[derive(Clone, Debug)]
pub struct Search {
    pub value: String,
    pub regex: bool,
}

/// A requested column.
#[derive(Clone, Debug)]
pub struct Column {
    pub data: String,
    pub name: String,
    pub searchable: bool,
    pub orderable: bool,
    pub search: Search,
}

/// A sort direction.
#[derive(Clone, Copy, Debug, PartialEq, Eq, Structural)]
pub enum Dir {
    Asc,
    Desc,
}

/// A requested ordering, by column position.
#[derive(Clone, Debug)]
pub struct Order {
    pub column: usize,
    pub dir: Dir,
    pub name: String,
}

/// A table request: which page, which columns, how to order and filter.
#[derive(Clone, Debug)]
pub struct Request {
    pub draw: usize,
    pub start: usize,
    pub length: isize,
    pub columns: Vec<Column>,
    pub order: Option<Vec<Order>>,
    pub search: Search,
}

/// A table response: one page of rows and the counts around it.
#[derive(Clone, Debug)]
pub struct Response<T> {
    pub draw: usize,
    pub records_total: usize,
    pub records_filtered: usize,
    pub data: Vec<T>,
    pub error: Option<String>,
}

impl Default for Dir {
    fn default() -> (r: Dir)
        ensures
            r == Dir::Asc,
    {
        Dir::Asc
    }
}

} // verus!
