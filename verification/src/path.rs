//! The picture of a search path: one row of cells per lane, one cell per
//! record position, with the records that a search on that lane may step on
//! marked.

use vstd::prelude::*;
use crate::model::Record;
use crate::model::next_on_lane;

verus! {

/// How a cell is marked.
#[derive(Clone, Copy, Debug, PartialEq, Eq, Structural)]
pub enum Tint {
    /// On the lane where the search ended, at or before the offset sought.
    Red,
    /// Not on the search's way.
    White,
    /// The record with the offset sought.
    Green,
}

/// One cell of a row.
#[derive(Clone, Debug, PartialEq, Eq)]
pub enum PathCell {
    /// The row's heading: its lane.
    Label(usize),
    /// A position that the lane passes over, marked like the record that
    /// the lane reaches next, or unmarked where it reaches none.
    Arrow(Option<Tint>),
    /// A record on the lane: its offset, its payload and its mark.
    Entry(u64, String, Tint),
}

/// A cell as contracts see it.
pub enum CellModel {
    Label(nat),
    Arrow(Option<Tint>),
    Entry(u64, Seq<char>, Tint),
}

impl View for PathCell {
    type V = CellModel;

    open spec fn view(&self) -> CellModel {
        match *self {
            PathCell::Label(level) => CellModel::Label(level as nat),
            PathCell::Arrow(tint) => CellModel::Arrow(tint),
            PathCell::Entry(offset, data, tint) => CellModel::Entry(offset, data@, tint),
        }
    }
}

/// A row as contracts see it.
pub open spec fn row_model(row: Vec<PathCell>) -> Seq<CellModel> {
    Seq::new(row@.len(), |i: int| row@[i]@)
}

/// The mark of the way to `rec` on lane `level`, for a search of `offset`
/// that ended on lane `found_level`.
pub open spec fn way_tint(rec: Record, level: nat, offset: u64, found_level: nat) -> Tint {
    if level == found_level && rec.offset <= offset {
        Tint::Red
    } else {
        Tint::White
    }
}

/// The mark of `rec` itself.
pub open spec fn entry_tint(rec: Record, level: nat, offset: u64, found_level: nat) -> Tint {
    if rec.offset == offset {
        Tint::Green
    } else {
        way_tint(rec, level, offset, found_level)
    }
}

/// The cell of position `p` in the row of lane `level`.
pub open spec fn cell_at(recs: Seq<Record>, level: nat, p: int, offset: u64, found_level: nat)
    -> CellModel {
    match next_on_lane(recs, level, p) {
        Some(q) => if q == p {
            CellModel::Entry(recs[p].offset, recs[p].data, entry_tint(recs[p], level, offset, found_level))
        } else {
            CellModel::Arrow(Some(way_tint(recs[q], level, offset, found_level)))
        },
        None => CellModel::Arrow(None),
    }
}

/// The row of lane `level`: its heading, then one cell per position.
pub open spec fn path_row(recs: Seq<Record>, level: nat, offset: u64, found_level: nat) -> Seq<
    CellModel,
> {
    seq![CellModel::Label(level)] + Seq::new(
        recs.len(),
        |p: int| cell_at(recs, level, p, offset, found_level),
    )
}

} // verus!
