//! What follows from the contracts of the list's operations, stated over
//! the records of a list and proved once for every list.

use vstd::prelude::*;
use crate::model::Record;
use crate::model::answers;
use crate::model::ascending;
use crate::model::entry_level;
use crate::model::climb;
use crate::model::descend;
use crate::model::lane;
use crate::model::lookup;
use crate::model::met_on;
use crate::model::next_on_lane;
use crate::model::walk_end;
use crate::model::lane_from;
use crate::model::shaped;

verus! {

/// A run that starts with `n` heads climbs to lane `n`, where the top lane
/// is `n` or the run goes on with a tail or ends there.
pub proof fn lemma_climb_counts_heads(flips: Seq<bool>, cap: nat, n: nat)
    requires
        n <= flips.len(),
        n <= cap,
        forall|i: int| 0 <= i < n ==> flips[i],
        n == cap || n == flips.len() || !flips[n as int],
    ensures
        climb(flips, cap) == n,
    decreases n,
{
    if n > 0 {
        let rest = flips.drop_first();
        assert(flips[0]);
        assert forall|i: int| 0 <= i < n - 1 implies rest[i] by {
            assert(rest[i] == flips[i + 1]);
        }
        if n < cap && n < flips.len() {
            assert(rest[n - 1] == flips[n as int]);
        }
        lemma_climb_counts_heads(rest, (cap - 1) as nat, (n - 1) as nat);
    }
}

/// Appending a record whose offset is greater than the last one keeps the
/// offsets strictly growing.
pub proof fn lemma_append_keeps_ascending(recs: Seq<Record>, rec: Record)
    requires
        ascending(recs),
        recs.len() > 0 ==> recs.last().offset < rec.offset,
    ensures
        ascending(recs.push(rec)),
{
    let next = recs.push(rec);
    assert forall|i: int, j: int| 0 <= i < j < next.len() implies next[i].offset
        < next[j].offset by {
        if j == recs.len() && i < recs.len() - 1 {
            assert(recs[i].offset < recs[recs.len() - 1].offset);
        }
    }
}

/// On a list with strictly growing offsets a lookup gives back the payload
/// of every offset that was appended, and nothing for any other offset.
pub proof fn lemma_lookup_exact(recs: Seq<Record>, offset: u64, r: Option<(Seq<char>, nat)>)
    requires
        ascending(recs),
        answers(recs, offset, r),
    ensures
        forall|i: int|
            0 <= i < recs.len() && (#[trigger] recs[i]).offset == offset ==> r.is_some()
                && r.unwrap().0 == recs[i].data,
        (forall|i: int| 0 <= i < recs.len() ==> (#[trigger] recs[i]).offset != offset)
            ==> r.is_none(),
{
    assert forall|i: int| 0 <= i < recs.len() && (#[trigger] recs[i]).offset == offset implies
        r.is_some() && r.unwrap().0 == recs[i].data by {
        let w = choose|w: int|
            0 <= w < recs.len() && (#[trigger] recs[w]).offset == offset && recs[w].data
                == r.unwrap().0 && met_on(recs, w, r.unwrap().1);
        if w < i {
            assert(recs[w].offset < recs[i].offset);
        } else if i < w {
            assert(recs[i].offset < recs[w].offset);
        }
    }
}

/// After a record with a greater offset is appended to a list with strictly
/// growing offsets, a lookup of the new offset gives the new payload, and a
/// lookup of an earlier offset still gives the payload it gave before.
pub proof fn lemma_appended_is_found(
    recs: Seq<Record>,
    rec: Record,
    offset: u64,
    r: Option<(Seq<char>, nat)>,
)
    requires
        ascending(recs),
        recs.len() > 0 ==> recs.last().offset < rec.offset,
        answers(recs.push(rec), offset, r),
    ensures
        offset == rec.offset ==> r.is_some() && r.unwrap().0 == rec.data,
        forall|i: int|
            0 <= i < recs.len() && (#[trigger] recs[i]).offset == offset ==> r.is_some()
                && r.unwrap().0 == recs[i].data,
{
    let next = recs.push(rec);
    lemma_append_keeps_ascending(recs, rec);
    lemma_lookup_exact(next, offset, r);
    assert(next[recs.len() as int] == rec);
    assert forall|i: int| 0 <= i < recs.len() && (#[trigger] recs[i]).offset == offset implies
        r.is_some() && r.unwrap().0 == recs[i].data by {
        assert(next[i] == recs[i]);
    }
}

/// On a list with a single lane every record is on lane 0 alone, and every
/// record that a lookup finds is met there.
pub proof fn lemma_single_lane(recs: Seq<Record>, offset: u64, r: Option<(Seq<char>, nat)>)
    requires
        shaped(recs, 1),
        answers(recs, offset, r),
    ensures
        forall|i: int| 0 <= i < recs.len() ==> (#[trigger] recs[i]).height == 1,
        r.is_some() ==> r.unwrap().1 == 0,
{
    if r.is_some() {
        let level = r.unwrap().1;
        let w = choose|w: int|
            0 <= w < recs.len() && (#[trigger] recs[w]).offset == offset && recs[w].data
                == r.unwrap().0 && met_on(recs, w, level);
        if w == 0 && level > 0 {
            let k = choose|k: int| 0 < k < recs.len() && (#[trigger] recs[k]).height == level + 1;
            assert(recs[k].height <= 1);
        }
    }
}

/// A descent has one starting lane.
pub proof fn lemma_entry_level_unique(recs: Seq<Record>, a: nat, b: nat)
    requires
        entry_level(recs, a),
        entry_level(recs, b),
    ensures
        a == b,
{
    if a < b {
        let k = choose|k: int| 0 < k < recs.len() && (#[trigger] recs[k]).height == b + 1;
        assert(recs[k].height <= a + 1);
    } else if b < a {
        let k = choose|k: int| 0 < k < recs.len() && (#[trigger] recs[k]).height == a + 1;
        assert(recs[k].height <= b + 1);
    }
}

/// On a list that is not empty a lookup is the descent from the first record
/// on the lane where a descent starts.
pub proof fn lemma_lookup_from_entry(recs: Seq<Record>, level: nat, offset: u64)
    requires
        recs.len() > 0,
        entry_level(recs, level),
    ensures
        lookup(recs, offset) == descend(recs, level, 0, offset),
{
    let entry = choose|l: nat| entry_level(recs, l);
    lemma_entry_level_unique(recs, entry, level);
}

/// On a list with strictly growing offsets a lookup owes one answer only:
/// any two answers to the same offset are the same answer, however often
/// the lookup is made.
pub proof fn lemma_lookup_repeatable(
    recs: Seq<Record>,
    offset: u64,
    first: Option<(Seq<char>, nat)>,
    second: Option<(Seq<char>, nat)>,
)
    requires
        ascending(recs),
        answers(recs, offset, first),
        answers(recs, offset, second),
    ensures
        first == second,
{
    lemma_lookup_exact(recs, offset, first);
    lemma_lookup_exact(recs, offset, second);
    if first.is_some() {
        let (d1, l1) = first.unwrap();
        let w = choose|w: int|
            0 <= w < recs.len() && (#[trigger] recs[w]).offset == offset && recs[w].data == d1
                && met_on(recs, w, l1);
        assert(second.is_some());
        let (d2, l2) = second.unwrap();
        let v = choose|v: int|
            0 <= v < recs.len() && (#[trigger] recs[v]).offset == offset && recs[v].data == d2
                && met_on(recs, v, l2);
        if w < v {
            assert(recs[w].offset < recs[v].offset);
        } else if v < w {
            assert(recs[v].offset < recs[w].offset);
        }
        if w == 0 {
            lemma_entry_level_unique(recs, l1, l2);
        }
    } else {
        if second.is_some() {
            let (d2, l2) = second.unwrap();
            let v = choose|v: int|
                0 <= v < recs.len() && (#[trigger] recs[v]).offset == offset && recs[v].data
                    == d2 && met_on(recs, v, l2);
            assert(recs[v].offset != offset);
        }
    }
}

/// Where no record from `p` up to `q` is on the lane, the lane from `p`
/// is the lane from `q`.
pub proof fn lemma_lane_skips(recs: Seq<Record>, level: nat, p: int, q: int)
    requires
        0 <= p <= q <= recs.len(),
        forall|k: int| p <= k < q ==> (#[trigger] recs[k]).height <= level,
    ensures
        lane_from(recs, level, p) == lane_from(recs, level, q),
    decreases q - p,
{
    if p < q {
        assert(recs[p].height <= level);
        lemma_lane_skips(recs, level, p + 1, q);
    }
}

/// The part of a lane from `p` on holds positions from `p` on, of records
/// on the lane, each greater than the one before.
pub proof fn lemma_lane_from_climbs(recs: Seq<Record>, level: nat, p: int)
    requires
        0 <= p <= recs.len(),
    ensures
        lane_from(recs, level, p).len() <= recs.len() - p,
        forall|a: int|
            0 <= a < lane_from(recs, level, p).len() ==> p <= #[trigger] lane_from(recs, level, p)[a]
                < recs.len() && recs[lane_from(recs, level, p)[a]].height > level,
        forall|a: int, b: int|
            0 <= a < b < lane_from(recs, level, p).len() ==> lane_from(recs, level, p)[a]
                < lane_from(recs, level, p)[b],
    decreases recs.len() - p,
{
    if p < recs.len() {
        lemma_lane_from_climbs(recs, level, p + 1);
        let rest = lane_from(recs, level, p + 1);
        let all = lane_from(recs, level, p);
        if recs[p].height > level {
            assert(all =~= seq![p] + rest);
            assert forall|a: int| 0 <= a < all.len() implies p <= #[trigger] all[a] < recs.len()
                && recs[all[a]].height > level by {
                if a > 0 {
                    assert(all[a] == rest[a - 1]);
                }
            }
            assert forall|a: int, b: int| 0 <= a < b < all.len() implies all[a] < all[b] by {
                assert(all[b] == rest[b - 1]);
                if a > 0 {
                    assert(all[a] == rest[a - 1]);
                }
            }
        }
    }
}

/// Where every record is on lane 0, the part of lane 0 from `p` on holds
/// every position from `p` on.
pub proof fn lemma_ground_lane_from(recs: Seq<Record>, p: int)
    requires
        0 <= p <= recs.len(),
        forall|i: int| 0 <= i < recs.len() ==> (#[trigger] recs[i]).height >= 1,
    ensures
        lane_from(recs, 0, p) == Seq::new((recs.len() - p) as nat, |i: int| p + i),
    decreases recs.len() - p,
{
    if p < recs.len() {
        lemma_ground_lane_from(recs, p + 1);
        assert(recs[p].height >= 1);
        assert(lane_from(recs, 0, p) =~= Seq::new((recs.len() - p) as nat, |i: int| p + i));
    } else {
        assert(lane_from(recs, 0, p) =~= Seq::new((recs.len() - p) as nat, |i: int| p + i));
    }
}

/// A lane of a list of `n` records holds at most `n` positions, each
/// greater than the one before, and each of them a position of lane 0, which
/// holds them all. Where the offsets grow strictly along the list, they grow
/// strictly along every lane.
pub proof fn lemma_lane_is_part_of_ground_lane(recs: Seq<Record>, lanes: nat, level: nat)
    requires
        shaped(recs, lanes),
    ensures
        lane(recs, level).len() <= recs.len(),
        lane(recs, 0).len() == recs.len(),
        forall|a: int, b: int|
            0 <= a < b < lane(recs, level).len() ==> lane(recs, level)[a] < lane(recs, level)[b],
        forall|a: int|
            0 <= a < lane(recs, level).len() ==> 0 <= #[trigger] lane(recs, level)[a] < recs.len()
                && lane(recs, 0)[lane(recs, level)[a]] == lane(recs, level)[a],
        ascending(recs) ==> forall|a: int, b: int|
            0 <= a < b < lane(recs, level).len() ==> recs[lane(recs, level)[a]].offset
                < recs[lane(recs, level)[b]].offset,
{
    lemma_lane_from_climbs(recs, level, 0);
    lemma_ground_lane_from(recs, 0);
    let s = lane(recs, level);
    if ascending(recs) {
        assert forall|a: int, b: int| 0 <= a < b < s.len() implies recs[s[a]].offset
            < recs[s[b]].offset by {
            assert(0 <= s[a] < recs.len());
            assert(0 <= s[b] < recs.len());
            assert(s[a] < s[b]);
        }
    }
}

/// What the lane reaches next from `p` is the first position from `p` on
/// of a record on the lane.
pub proof fn lemma_next_on_lane_is_first(recs: Seq<Record>, level: nat, p: int)
    requires
        0 <= p,
    ensures
        match next_on_lane(recs, level, p) {
            Some(q) => p <= q < recs.len() && recs[q].height > level && forall|k: int|
                p <= k < q ==> (#[trigger] recs[k]).height <= level,
            None => forall|k: int| p <= k < recs.len() ==> (#[trigger] recs[k]).height <= level,
        },
    decreases recs.len() - p,
{
    if p < recs.len() && recs[p].height <= level {
        lemma_next_on_lane_is_first(recs, level, p + 1);
    }
}

/// A walk along a lane ends on a record of that lane, at or after its
/// start, whose offset is at most the offset sought unless the walk never
/// moved. Where the offsets grow strictly, every later record on the lane
/// has a greater offset than the one sought.
pub proof fn lemma_walk_end_stops(recs: Seq<Record>, level: nat, n: int, offset: u64)
    requires
        0 <= n < recs.len(),
        recs[n].height > level,
    ensures
        n <= walk_end(recs, level, n, offset) < recs.len(),
        recs[walk_end(recs, level, n, offset)].height > level,
        walk_end(recs, level, n, offset) == n || recs[walk_end(recs, level, n, offset)].offset
            <= offset,
        ascending(recs) ==> forall|k: int|
            walk_end(recs, level, n, offset) < k < recs.len() && (#[trigger] recs[k]).height
                > level ==> recs[k].offset > offset,
    decreases recs.len() - n,
{
    lemma_next_on_lane_is_first(recs, level, n + 1);
    match next_on_lane(recs, level, n + 1) {
        Some(q) => {
            if recs[q].offset <= offset {
                lemma_walk_end_stops(recs, level, q, offset);
            } else if ascending(recs) {
                assert forall|k: int| n < k < recs.len() && (#[trigger] recs[k]).height
                    > level implies recs[k].offset > offset by {
                    if k > q {
                        assert(recs[q].offset < recs[k].offset);
                    }
                }
            }
        },
        None => {},
    }
}

/// Every list has a lane on which a descent starts.
pub proof fn lemma_entry_level_exists(recs: Seq<Record>) -> (level: nat)
    ensures
        entry_level(recs, level),
    decreases recs.len(),
{
    if recs.len() <= 1 {
        0
    } else {
        let front = recs.drop_last();
        let below = lemma_entry_level_exists(front);
        let last = recs.len() - 1;
        assert forall|k: int| 0 < k < last implies (#[trigger] recs[k]).height <= below + 1 by {
            assert(front[k] == recs[k]);
        }
        if recs[last].height <= below + 1 {
            if below > 0 {
                let k = choose|k: int| 0 < k < front.len() && (#[trigger] front[k]).height == below + 1;
                assert(recs[k] == front[k]);
            }
            below
        } else {
            let top = (recs[last].height - 1) as nat;
            assert(recs[last].height == top + 1);
            top
        }
    }
}

/// The rest of a descent answers as owed, where the descent so far has
/// passed no record with the offset sought.
proof fn lemma_descend_answers(recs: Seq<Record>, top: nat, level: nat, n: int, offset: u64)
    requires
        ascending(recs),
        entry_level(recs, top),
        level <= top,
        forall|i: int| 0 <= i < recs.len() ==> (#[trigger] recs[i]).height >= 1,
        0 <= n < recs.len(),
        recs[n].height > level,
        n == 0 || recs[n].offset <= offset,
        level < top ==> recs[n].offset != offset,
        forall|k: int|
            n < k < recs.len() && (#[trigger] recs[k]).height > level + 1 ==> recs[k].offset
                > offset,
    ensures
        answers(recs, offset, descend(recs, level, n, offset)),
    decreases level,
{
    lemma_walk_end_stops(recs, level, n, offset);
    let m = walk_end(recs, level, n, offset);
    if recs[m].offset == offset {
        if m > 0 && recs[m].height > level + 1 {
            if level < top {
                assert(m > n);
            }
            assert(false);
        }
        assert(met_on(recs, m, level));
    } else if level == 0 {
        assert forall|i: int| 0 <= i < recs.len() implies (#[trigger] recs[i]).offset != offset by {
            if i < m {
                assert(recs[i].offset < recs[m].offset);
            }
        }
    } else {
        lemma_descend_answers(recs, top, (level - 1) as nat, m, offset);
    }
}

/// On a list with strictly growing offsets a lookup finds the record with
/// the offset sought, on the lane where a descent meets it, and finds
/// nothing where no record has that offset.
pub proof fn lemma_lookup_answers(recs: Seq<Record>, lanes: nat, offset: u64)
    requires
        ascending(recs),
        shaped(recs, lanes),
    ensures
        answers(recs, offset, lookup(recs, offset)),
{
    if recs.len() > 0 {
        let top = lemma_entry_level_exists(recs);
        lemma_lookup_from_entry(recs, top, offset);
        if top > 0 {
            let k = choose|k: int| 0 < k < recs.len() && (#[trigger] recs[k]).height == top + 1;
            assert(recs[k].height <= lanes);
        }
        assert(recs[0].height >= 1);
        lemma_descend_answers(recs, top, top, 0, offset);
    }
}

/// The first record of a list with strictly growing offsets is always
/// found, however many lanes the list has, on the lane where the descent
/// starts.
pub proof fn lemma_first_record_found(recs: Seq<Record>, lanes: nat)
    requires
        ascending(recs),
        shaped(recs, lanes),
        recs.len() > 0,
    ensures
        lookup(recs, recs[0].offset).is_some(),
        lookup(recs, recs[0].offset).unwrap().0 == recs[0].data,
        entry_level(recs, lookup(recs, recs[0].offset).unwrap().1),
{
    let r = lookup(recs, recs[0].offset);
    lemma_lookup_answers(recs, lanes, recs[0].offset);
    lemma_lookup_exact(recs, recs[0].offset, r);
    let w = choose|w: int|
        0 <= w < recs.len() && (#[trigger] recs[w]).offset == recs[0].offset && recs[w].data
            == r.unwrap().0 && met_on(recs, w, r.unwrap().1);
    if w > 0 {
        assert(recs[0].offset < recs[w].offset);
    }
}

} // verus!
