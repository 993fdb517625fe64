//! The row model: one record per emitted row of the flattened structure,
//! with sentinel-encoded optional indices and the closed set of row payloads.

use vstd::prelude::*;

verus! {

/// Reserved sentinel standing for "absent" in the compact index encoding.
pub const NIL: usize = usize::MAX;

/// An absent-or-present row index. Externally this is an explicit sum type;
/// the sentinel value `NIL` is accepted only at the single conversion point
/// (`From<usize>`), so no other logic ever compares against the sentinel.
#[derive(Copy, Clone, Debug, PartialEq, Eq, Structural)]
pub enum OptionIndex {
    Nil,
    Index(usize),
}

impl From<usize> for OptionIndex {
    fn from(i: usize) -> (r: Self) {
        if i == NIL {
            OptionIndex::Nil
        } else {
            OptionIndex::Index(i)
        }
    }
}

impl vstd::std_specs::convert::FromSpecImpl<usize> for OptionIndex {
    open spec fn obeys_from_spec() -> bool {
        true
    }

    open spec fn from_spec(i: usize) -> OptionIndex {
        if i == NIL {
            OptionIndex::Nil
        } else {
            OptionIndex::Index(i)
        }
    }
}

impl View for OptionIndex {
    type V = Option<int>;

    open spec fn view(&self) -> Option<int> {
        match *self {
            OptionIndex::Nil => None,
            OptionIndex::Index(i) => Some(i as int),
        }
    }
}

/// Which kind of container a boundary row belongs to.
#[derive(Copy, Clone, Debug, PartialEq, Eq, Structural)]
pub enum ContainerType {
    Object,
    Array,
}

/// The payload of a row. A non-empty container contributes two rows, an
/// `OpenContainer` and a matching `CloseContainer`; every other kind of node
/// (scalars and empty containers) contributes exactly one row.
#[derive(Debug)]
pub enum RowValue {
    Null,
    Boolean(bool),
    /// The numeric literal's own token, so no precision is silently lost.
    Number(String),
    String(String),
    EmptyObject,
    EmptyArray,
    OpenContainer { container_type: ContainerType, first_child: usize, close_index: usize },
    CloseContainer { container_type: ContainerType, last_child: usize, open_index: usize },
}

/// One row of the flattened structure.
#[derive(Debug)]
pub struct Row {
    pub parent: OptionIndex,
    pub prev_sibling: OptionIndex,
    pub next_sibling: OptionIndex,
    pub depth: usize,
    pub index: usize,
    pub key: Option<String>,
    pub value: RowValue,
}

/// Mathematical image of a row payload: indices as unbounded integers,
/// strings as character sequences.
pub enum ValueModel {
    Null,
    Boolean(bool),
    Number(Seq<char>),
    String(Seq<char>),
    EmptyObject,
    EmptyArray,
    OpenContainer { container_type: ContainerType, first_child: int, close_index: int },
    CloseContainer { container_type: ContainerType, last_child: int, open_index: int },
}

/// Mathematical image of a row.
pub struct RowModel {
    pub parent: Option<int>,
    pub prev_sibling: Option<int>,
    pub next_sibling: Option<int>,
    pub depth: int,
    pub index: int,
    pub key: Option<Seq<char>>,
    pub value: ValueModel,
}

pub open spec fn key_model(k: Option<String>) -> Option<Seq<char>> {
    match k {
        None => None,
        Some(s) => Some(s@),
    }
}

impl View for RowValue {
    type V = ValueModel;

    open spec fn view(&self) -> ValueModel {
        match *self {
            RowValue::Null => ValueModel::Null,
            RowValue::Boolean(b) => ValueModel::Boolean(b),
            RowValue::Number(ref t) => ValueModel::Number(t@),
            RowValue::String(ref s) => ValueModel::String(s@),
            RowValue::EmptyObject => ValueModel::EmptyObject,
            RowValue::EmptyArray => ValueModel::EmptyArray,
            RowValue::OpenContainer { container_type, first_child, close_index } => {
                ValueModel::OpenContainer {
                    container_type,
                    first_child: first_child as int,
                    close_index: close_index as int,
                }
            },
            RowValue::CloseContainer { container_type, last_child, open_index } => {
                ValueModel::CloseContainer {
                    container_type,
                    last_child: last_child as int,
                    open_index: open_index as int,
                }
            },
        }
    }
}

impl View for Row {
    type V = RowModel;

    open spec fn view(&self) -> RowModel {
        RowModel {
            parent: self.parent@,
            prev_sibling: self.prev_sibling@,
            next_sibling: self.next_sibling@,
            depth: self.depth as int,
            index: self.index as int,
            key: key_model(self.key),
            value: self.value@,
        }
    }
}

/// The mathematical image of a whole row sequence.
pub open spec fn rows_view(rows: Seq<Row>) -> Seq<RowModel> {
    rows.map_values(|r: Row| r@)
}

/// The finished flat structure: an ordered, index-addressable sequence of
/// rows, built once and immutable thereafter.
#[derive(Debug)]
pub struct FlatJson(pub Vec<Row>);

impl View for FlatJson {
    type V = Seq<RowModel>;

    open spec fn view(&self) -> Seq<RowModel> {
        rows_view(self.0@)
    }
}

impl FlatJson {
    /// Number of rows in the flattened structure.
    pub fn len(&self) -> (n: usize)
        ensures
            n == self@.len(),
    {
        self.0.len()
    }

    /// Structural parent of row `i`: the open row of the enclosing container,
    /// or absent for a top-level row.
    pub fn parent(&self, i: usize) -> (r: OptionIndex)
        requires
            i < self@.len(),
        ensures
            r@ == self@[i as int].parent,
    {
        self.0[i].parent
    }

    /// Previous sibling of row `i` under the same parent, in source order.
    pub fn prev_sibling(&self, i: usize) -> (r: OptionIndex)
        requires
            i < self@.len(),
        ensures
            r@ == self@[i as int].prev_sibling,
    {
        self.0[i].prev_sibling
    }

    /// Next sibling of row `i` under the same parent, in source order.
    pub fn next_sibling(&self, i: usize) -> (r: OptionIndex)
        requires
            i < self@.len(),
        ensures
            r@ == self@[i as int].next_sibling,
    {
        self.0[i].next_sibling
    }

    /// Nesting level of row `i`, 0 at the document root.
    pub fn depth(&self, i: usize) -> (d: usize)
        requires
            i < self@.len(),
        ensures
            d == self@[i as int].depth,
    {
        self.0[i].depth
    }

    /// 0-based position of row `i` among its parent's children.
    pub fn index(&self, i: usize) -> (x: usize)
        requires
            i < self@.len(),
        ensures
            x == self@[i as int].index,
    {
        self.0[i].index
    }

    /// Member name under which row `i` sits, when its parent is an object.
    pub fn key(&self, i: usize) -> (k: &Option<String>)
        requires
            i < self@.len(),
        ensures
            key_model(*k) == self@[i as int].key,
    {
        &self.0[i].key
    }

    /// Payload of row `i`.
    pub fn value(&self, i: usize) -> (v: &RowValue)
        requires
            i < self@.len(),
        ensures
            v@ == self@[i as int].value,
    {
        &self.0[i].value
    }

    /// Whether row `i` is the opening bracket of a non-empty container.
    pub fn is_open_container(&self, i: usize) -> (r: bool)
        requires
            i < self@.len(),
        ensures
            r == (self@[i as int].value is OpenContainer),
    {
        match self.0[i].value {
            RowValue::OpenContainer { .. } => true,
            _ => false,
        }
    }

    /// Whether row `i` is the closing bracket of a non-empty container.
    pub fn is_close_container(&self, i: usize) -> (r: bool)
        requires
            i < self@.len(),
        ensures
            r == (self@[i as int].value is CloseContainer),
    {
        match self.0[i].value {
            RowValue::CloseContainer { .. } => true,
            _ => false,
        }
    }

    /// Whether row `i` is either bracket of a non-empty container.
    pub fn is_container_boundary(&self, i: usize) -> (r: bool)
        requires
            i < self@.len(),
        ensures
            r == (self@[i as int].value is OpenContainer || self@[i as int].value
                is CloseContainer),
    {
        match self.0[i].value {
            RowValue::OpenContainer { .. } => true,
            RowValue::CloseContainer { .. } => true,
            _ => false,
        }
    }

    /// The matching close row of the open row `i`, or absent when row `i` is
    /// not an open row.
    pub fn close_of(&self, i: usize) -> (r: Option<usize>)
        requires
            i < self@.len(),
        ensures
            match r {
                Some(c) => self@[i as int].value matches ValueModel::OpenContainer {
                    close_index,
                    ..
                } && close_index == c as int,
                None => !(self@[i as int].value is OpenContainer),
            },
    {
        match self.0[i].value {
            RowValue::OpenContainer { close_index, .. } => Some(close_index),
            _ => None,
        }
    }

    /// Whether the open row `o` and the close row `c` are the two brackets of
    /// one container.
    pub fn close_matches_open(&self, o: usize, c: usize) -> (r: bool)
        requires
            o < self@.len(),
            c < self@.len(),
        ensures
            r == ((self@[o as int].value matches ValueModel::OpenContainer { close_index, .. }
                && close_index == c as int) && (self@[c as int].value
                matches ValueModel::CloseContainer { open_index, .. } && open_index == o as int)),
    {
        let open_points_at_c = match self.0[o].value {
            RowValue::OpenContainer { close_index, .. } => close_index == c,
            _ => false,
        };
        let close_points_at_o = match self.0[c].value {
            RowValue::CloseContainer { open_index, .. } => open_index == o,
            _ => false,
        };
        open_points_at_c && close_points_at_o
    }
}

} // verus!
