//! The mathematical picture of a skip list: its records in append order,
//! each with the number of lanes it takes part in.

use vstd::prelude::*;

verus! {

/// One appended record as contracts see it.
pub struct Record {
    /// The search key.
    pub offset: u64,
    /// The payload.
    pub data: Seq<char>,
    /// How many lanes the record takes part in: lanes `0 .. height`.
    pub height: nat,
}

/// The lane that a run of coin flips climbs to from lane 0: one lane per
/// head, up to the first tail, the end of the run or the top lane `cap`.
pub open spec fn climb(flips: Seq<bool>, cap: nat) -> nat
    decreases flips.len(),
{
    if flips.len() == 0 || !flips[0] || cap == 0 {
        0
    } else {
        1 + climb(flips.drop_first(), (cap - 1) as nat)
    }
}

/// Offsets grow strictly from each record to the next.
pub open spec fn ascending(recs: Seq<Record>) -> bool {
    forall|i: int, j: int| 0 <= i < j < recs.len() ==> recs[i].offset < recs[j].offset
}

/// Every record takes part in at least lane 0 and in at most `lanes` lanes,
/// and the first record takes part in all of them.
pub open spec fn shaped(recs: Seq<Record>, lanes: nat) -> bool {
    &&& forall|i: int| 0 <= i < recs.len() ==> 1 <= (#[trigger] recs[i]).height <= lanes
    &&& recs.len() > 0 ==> recs[0].height == lanes
}

/// `level` is the lane on which a descent starts: the highest lane that a
/// record other than the first takes part in, or lane 0 where there is none.
pub open spec fn entry_level(recs: Seq<Record>, level: nat) -> bool {
    &&& forall|k: int| 0 < k < recs.len() ==> (#[trigger] recs[k]).height <= level + 1
    &&& (level == 0 || exists|k: int| 0 < k < recs.len() && (#[trigger] recs[k]).height == level + 1)
}

/// `level` is the lane on which a descent meets record `i`: its own top lane,
/// or for the first record the lane on which the descent starts.
pub open spec fn met_on(recs: Seq<Record>, i: int, level: nat) -> bool {
    if i == 0 {
        entry_level(recs, level)
    } else {
        recs[i].height == level + 1
    }
}

/// `r` is the answer that a lookup of `offset` owes on an ascending list:
/// the payload of the record with that offset and the lane on which the
/// descent meets it, or nothing where no record has that offset.
pub open spec fn answers(recs: Seq<Record>, offset: u64, r: Option<(Seq<char>, nat)>) -> bool {
    match r {
        Some((d, level)) => exists|i: int|
            0 <= i < recs.len() && (#[trigger] recs[i]).offset == offset && recs[i].data == d
                && met_on(recs, i, level),
        None => forall|i: int| 0 <= i < recs.len() ==> (#[trigger] recs[i]).offset != offset,
    }
}

/// The first position at or after `p` whose record is on lane `level`.
pub open spec fn next_on_lane(recs: Seq<Record>, level: nat, p: int) -> Option<int>
    decreases recs.len() - p,
{
    if p < 0 || p >= recs.len() {
        None
    } else if recs[p].height > level {
        Some(p)
    } else {
        next_on_lane(recs, level, p + 1)
    }
}

/// Where a walk along lane `level` from position `n` ends: it moves to the
/// next record on the lane for as long as that record's offset is at most
/// `offset`.
pub open spec fn walk_end(recs: Seq<Record>, level: nat, n: int, offset: u64) -> int
    decreases recs.len() - n,
{
    match next_on_lane(recs, level, n + 1) {
        Some(q) => if n < q < recs.len() && recs[q].offset <= offset {
            walk_end(recs, level, q, offset)
        } else {
            n
        },
        None => n,
    }
}

/// What a descent from position `n` on lane `level` comes to: after the
/// walk along each lane it stops where it stands on `offset`, and else goes
/// one lane down, until lane 0 is done.
pub open spec fn descend(recs: Seq<Record>, level: nat, n: int, offset: u64)
    -> Option<(Seq<char>, nat)>
    decreases level,
{
    let m = walk_end(recs, level, n, offset);
    if recs[m].offset == offset {
        Some((recs[m].data, level))
    } else if level == 0 {
        None
    } else {
        descend(recs, (level - 1) as nat, m, offset)
    }
}

/// What a lookup of `offset` comes to on any list, whatever the order of
/// its offsets: the descent from the first record on the lane where a
/// descent starts.
pub open spec fn lookup(recs: Seq<Record>, offset: u64) -> Option<(Seq<char>, nat)> {
    if recs.len() == 0 {
        None
    } else {
        descend(recs, choose|level: nat| entry_level(recs, level), 0, offset)
    }
}

/// The positions from `p` on of the records that take part in lane
/// `level`, in order.
pub open spec fn lane_from(recs: Seq<Record>, level: nat, p: int) -> Seq<int>
    decreases recs.len() - p,
{
    if p < 0 || p >= recs.len() {
        Seq::empty()
    } else if recs[p].height > level {
        seq![p] + lane_from(recs, level, p + 1)
    } else {
        lane_from(recs, level, p + 1)
    }
}

/// The positions of the records that take part in lane `level`, in order.
pub open spec fn lane(recs: Seq<Record>, level: nat) -> Seq<int> {
    lane_from(recs, level, 0)
}

/// Where no record from `p` up to `q` is on the lane and `q` is, the lane
/// reaches `q` next.
pub proof fn lemma_next_on_lane_skips(recs: Seq<Record>, level: nat, p: int, q: int)
    requires
        0 <= p <= q < recs.len(),
        recs[q].height > level,
        forall|k: int| p <= k < q ==> (#[trigger] recs[k]).height <= level,
    ensures
        next_on_lane(recs, level, p) == Some(q),
    decreases q - p,
{
    if p < q {
        assert(recs[p].height <= level);
        lemma_next_on_lane_skips(recs, level, p + 1, q);
    }
}

/// Where no record from `p` on is on the lane, the lane reaches none.
pub proof fn lemma_next_on_lane_ends(recs: Seq<Record>, level: nat, p: int)
    requires
        0 <= p,
        forall|k: int| p <= k < recs.len() ==> (#[trigger] recs[k]).height <= level,
    ensures
        next_on_lane(recs, level, p) == None::<int>,
    decreases recs.len() - p,
{
    if p < recs.len() {
        assert(recs[p].height <= level);
        lemma_next_on_lane_ends(recs, level, p + 1);
    }
}

} // verus!
