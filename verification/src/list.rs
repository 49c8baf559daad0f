//! The skip list itself: an arena of records, one chain of forward links
//! per lane, and the two operations `append` and `find`.

use vstd::prelude::*;
use crate::model::Record;
use crate::model::answers;
use crate::model::ascending;
use crate::model::entry_level;
use crate::model::lane;
use crate::model::lane_from;
use crate::laws::lemma_append_keeps_ascending;
use crate::laws::lemma_climb_counts_heads;
use crate::laws::lemma_lane_from_climbs;
use crate::laws::lemma_lane_is_part_of_ground_lane;
use crate::laws::lemma_lane_skips;
use crate::model::shaped;
use crate::path::PathCell;
use crate::path::Tint;
use crate::path::CellModel;
use crate::path::cell_at;
use crate::path::way_tint;
use crate::model::lemma_next_on_lane_ends;
use crate::model::lemma_next_on_lane_skips;
use crate::model::climb;
use crate::model::descend;
use crate::model::lookup;
use crate::model::walk_end;
use crate::laws::lemma_lookup_answers;
use crate::laws::lemma_lookup_from_entry;
use crate::path::path_row;
use crate::path::row_model;
use crate::random::flip;

verus! {

/// One stored record with its forward links, one link per lane it takes
/// part in. A link is the arena index of the next record on that lane.
#[derive(Debug, Clone)]
pub struct Node {
    data: String,
    next: Vec<Option<usize>>,
    offset: u64,
    pos: u64,
}

impl Node {
    fn new(next: Vec<Option<usize>>, offset: u64, data: String, pos: u64) -> (node: Node)
        ensures
            node.next == next,
            node.offset == offset,
            node.data == data,
            node.pos == pos,
    {
        Node { next, offset, data, pos }
    }
}

/// An append-only list of records, searched by offset over several lanes.
#[derive(Debug, Clone)]
pub struct SkipList {
    nodes: Vec<Node>,
    head: Option<usize>,
    tails: Vec<Option<usize>>,
    max_level_idx: usize,
    length: u64,
}

/// The answer of a lookup as contracts see it.
pub open spec fn outcome(r: Option<(String, usize)>) -> Option<(Seq<char>, nat)> {
    match r {
        Some((d, level)) => Some((d@, level as nat)),
        None => None,
    }
}

/// A vector of `n` empty links.
fn empty_links(n: usize) -> (links: Vec<Option<usize>>)
    ensures
        links@.len() == n,
        forall|l: int| 0 <= l < n ==> links@[l] == None::<usize>,
{
    let mut links: Vec<Option<usize>> = Vec::new();
    while links.len() < n
        invariant
            links@.len() <= n,
            forall|l: int| 0 <= l < links@.len() ==> links@[l] == None::<usize>,
        decreases n - links@.len(),
    {
        links.push(None);
    }
    links
}

/// `link` is the right forward link of record `i` on lane `l`: the next
/// record that takes part in that lane, if there is one.
spec fn link_ok(hs: Seq<nat>, i: int, l: int, link: Option<usize>) -> bool {
    match link {
        Some(j) => i < j < hs.len() && hs[j as int] > l && forall|k: int|
            i < k < j ==> #[trigger] hs[k] <= l,
        None => forall|k: int| i < k < hs.len() ==> #[trigger] hs[k] <= l,
    }
}

/// `tail` is the right tail of lane `l`: the last record on that lane.
spec fn tail_ok(hs: Seq<nat>, l: int, tail: Option<usize>) -> bool {
    match tail {
        Some(j) => j < hs.len() && hs[j as int] > l && forall|k: int|
            j < k < hs.len() ==> #[trigger] hs[k] <= l,
        None => hs.len() == 0,
    }
}

impl View for SkipList {
    type V = Seq<Record>;

    closed spec fn view(&self) -> Seq<Record> {
        Seq::new(
            self.nodes@.len(),
            |i: int|
                Record {
                    offset: self.nodes@[i].offset,
                    data: self.nodes@[i].data@,
                    height: self.nodes@[i].next@.len(),
                },
        )
    }
}

impl SkipList {
    /// The number of lanes, fixed when the list was made.
    pub closed spec fn lanes(&self) -> nat {
        self.tails@.len()
    }

    /// The number of lanes that each record takes part in.
    spec fn heights(&self) -> Seq<nat> {
        Seq::new(self.nodes@.len(), |i: int| self.nodes@[i].next@.len())
    }

    /// The arena, the links and the tails agree with each other.
    pub closed spec fn wf(&self) -> bool {
        &&& self.tails@.len() == self.max_level_idx + 1
        &&& self.length == self.nodes@.len()
        &&& self.head == (if self.nodes@.len() == 0 { None } else { Some(0usize) })
        &&& forall|i: int|
            0 <= i < self.nodes@.len() ==> 1 <= (#[trigger] self.nodes@[i]).next@.len()
                <= self.tails@.len() && self.nodes@[i].pos == i
        &&& self.nodes@.len() > 0 ==> self.nodes@[0].next@.len() == self.tails@.len()
        &&& forall|i: int, l: int|
            0 <= i < self.nodes@.len() && 0 <= l < self.nodes@[i].next@.len() ==> link_ok(
                self.heights(),
                i,
                l,
                #[trigger] self.nodes@[i].next@[l],
            )
        &&& forall|l: int|
            0 <= l < self.tails@.len() ==> tail_ok(self.heights(), l, #[trigger] self.tails@[l])
    }

    /// A well-formed list has at least one lane, every record on lane 0, and
    /// its first record on every lane.
    pub proof fn lemma_shaped(&self)
        requires
            self.wf(),
        ensures
            self.lanes() >= 1,
            shaped(self@, self.lanes()),
    {
        assert forall|i: int| 0 <= i < self@.len() implies 1 <= (#[trigger] self@[i]).height
            <= self.lanes() by {
            assert(self@[i].height == self.nodes@[i].next@.len());
        }
        if self@.len() > 0 {
            assert(self@[0].height == self.nodes@[0].next@.len());
        }
    }

    /// The positions that the forward links of lane `level` lead through,
    /// starting with record `from`.
    pub closed spec fn chain(&self, level: nat, from: int) -> Seq<int>
        decreases self@.len() - from,
    {
        if 0 <= from < self@.len() && level < self.nodes@[from].next@.len() {
            match self.nodes@[from].next@[level as int] {
                Some(j) => if from < j < self@.len() {
                    seq![from] + self.chain(level, j as int)
                } else {
                    seq![from]
                },
                None => seq![from],
            }
        } else {
            Seq::empty()
        }
    }

    /// From a record on lane `level`, the forward links of that lane lead
    /// through exactly the later records on the lane, in order.
    pub proof fn lemma_chain_is_lane_from(&self, level: nat, from: int)
        requires
            self.wf(),
            0 <= from < self@.len(),
            self@[from].height > level,
        ensures
            self.chain(level, from) == lane_from(self@, level, from),
        decreases self@.len() - from,
    {
        let hs = self.heights();
        let recs = self@;
        assert(recs[from].height == self.nodes@[from].next@.len());
        let link = self.nodes@[from].next@[level as int];
        assert(link_ok(hs, from, level as int, link));
        match link {
            Some(j) => {
                assert(recs[j as int].height == hs[j as int]);
                self.lemma_chain_is_lane_from(level, j as int);
                assert forall|k: int| from + 1 <= k < j implies (#[trigger] recs[k]).height
                    <= level by {
                    assert(recs[k].height == hs[k]);
                }
                lemma_lane_skips(recs, level, from + 1, j as int);
            },
            None => {
                assert forall|k: int| from + 1 <= k < recs.len() implies (#[trigger] recs[k]).height
                    <= level by {
                    assert(recs[k].height == hs[k]);
                }
                lemma_lane_skips(recs, level, from + 1, recs.len() as int);
                assert(lane_from(recs, level, recs.len() as int) =~= Seq::<int>::empty());
                assert(self.chain(level, from) =~= lane_from(recs, level, from));
            },
        }
    }

    /// The forward links of each lane lead from the first record through
    /// exactly the records on that lane, in the order they were appended.
    pub proof fn lemma_chain_is_lane(&self, level: nat)
        requires
            self.wf(),
            self@.len() > 0,
            level < self.lanes(),
        ensures
            self.chain(level, 0) == lane(self@, level),
    {
        self.lemma_shaped();
        self.lemma_chain_is_lane_from(level, 0);
    }

    /// The chain of forward links of a lane leads through at most as many
    /// records as the list holds, each appended later than the one before,
    /// and each of them a record of lane 0's chain, which leads through
    /// them all. Where the offsets grow strictly along the list, they grow
    /// strictly along every chain.
    pub proof fn lemma_chain_is_part_of_ground_chain(&self, level: nat)
        requires
            self.wf(),
            level < self.lanes(),
        ensures
            self.chain(level, 0).len() <= self@.len(),
            self.chain(0, 0).len() == self@.len(),
            forall|a: int, b: int|
                0 <= a < b < self.chain(level, 0).len()
                    ==> self.chain(level, 0)[a] < self.chain(level, 0)[b],
            forall|a: int|
                0 <= a < self.chain(level, 0).len()
                    ==> 0 <= #[trigger] self.chain(level, 0)[a] < self@.len()
                    && self@[self.chain(level, 0)[a]].height > level
                    && self.chain(0, 0)[self.chain(level, 0)[a]] == self.chain(level, 0)[a],
            ascending(self@) ==> forall|a: int, b: int|
                0 <= a < b < self.chain(level, 0).len() ==> self@[self.chain(level, 0)[a]].offset
                    < self@[self.chain(level, 0)[b]].offset,
    {
        self.lemma_shaped();
        if self@.len() > 0 {
            self.lemma_chain_is_lane(level);
            self.lemma_chain_is_lane(0);
            lemma_lane_is_part_of_ground_lane(self@, self.lanes(), level);
            lemma_lane_from_climbs(self@, level, 0);
        }
    }

    /// An empty list with `level` lanes.
    pub fn new(level: usize) -> (list: Self)
        requires
            level >= 1,
        ensures
            list.wf(),
            list@ == Seq::<Record>::empty(),
            list.lanes() == level,
    {
        let list = SkipList {
            nodes: Vec::new(),
            head: None,
            tails: empty_links(level),
            max_level_idx: level - 1,
            length: 0,
        };
        assert(list@ =~= Seq::<Record>::empty());
        list
    }

    /// An empty list with `level` lanes, or nothing where `level` is 0: a
    /// list needs at least lane 0.
    pub fn try_new(level: usize) -> (r: Option<Self>)
        ensures
            r.is_none() <==> level == 0,
            r matches Some(list) ==> list.wf() && list@ == Seq::<Record>::empty() && list.lanes()
                == level,
    {
        if level == 0 {
            None
        } else {
            Some(SkipList::new(level))
        }
    }

    /// Appends a record and puts it on lanes `0 ..= level`; the first record
    /// of a list goes on every lane, whatever `level` is. The forward links
    /// of the records that ended those lanes now lead to the new record.
    pub fn append_at_level(&mut self, offset: u64, data: String, level: usize)
        requires
            old(self).wf(),
            level < old(self).lanes(),
        ensures
            final(self).wf(),
            final(self).lanes() == old(self).lanes(),
            final(self)@ == old(self)@.push(
                Record {
                    offset,
                    data: data@,
                    height: if old(self)@.len() == 0 {
                        old(self).lanes()
                    } else {
                        (level + 1) as nat
                    },
                },
            ),
    {
        let lanes: usize = self.tails.len();
        let height: usize = if self.head.is_none() {
            lanes
        } else {
            level + 1
        };
        let idx: usize = self.nodes.len();
        let ghost payload = data@;
        let ghost hs_old = self.heights();
        let node = Node::new(empty_links(height), offset, data, self.length);
        self.nodes.push(node);
        let ghost hs = self.heights();
        assert(hs =~= hs_old.push(height as nat));
        let mut i: usize = 0;
        while i < height
            invariant
                old(self).wf(),
                hs_old == old(self).heights(),
                hs == hs_old.push(height as nat),
                i <= height <= self.tails@.len(),
                self.tails@.len() == old(self).tails@.len(),
                self.max_level_idx == old(self).max_level_idx,
                self.head == old(self).head,
                self.length == old(self).length,
                idx == old(self).nodes@.len(),
                self.nodes@.len() == idx + 1,
                self.heights() == hs,
                forall|k: int|
                    0 <= k < idx ==> (#[trigger] self.nodes@[k]).offset == old(self).nodes@[k].offset
                        && self.nodes@[k].data == old(self).nodes@[k].data && self.nodes@[k].pos
                        == old(self).nodes@[k].pos,
                self.nodes@[idx as int].offset == offset,
                self.nodes@[idx as int].data@ == payload,
                self.nodes@[idx as int].pos == old(self).length,
                self.nodes@[idx as int].next@.len() == height,
                forall|l: int| 0 <= l < height ==> self.nodes@[idx as int].next@[l] == None::<usize>,
                forall|l: int| 0 <= l < i ==> self.tails@[l] == Some(idx),
                forall|l: int| i <= l < self.tails@.len() ==> self.tails@[l] == old(self).tails@[l],
                forall|k: int, l: int|
                    0 <= k < idx && 0 <= l < hs[k] ==> if l < i {
                        link_ok(hs, k, l, #[trigger] self.nodes@[k].next@[l])
                    } else {
                        self.nodes@[k].next@[l] == old(self).nodes@[k].next@[l]
                    },
            decreases height - i,
        {
            let ghost before = self.nodes@;
            assert(tail_ok(hs_old, i as int, old(self).tails@[i as int]));
            match self.tails[i] {
                Some(t) => {
                    assert(self.heights()[t as int] == self.nodes@[t as int].next@.len());
                    self.nodes[t].next[i] = Some(idx);
                    assert(self.heights() =~= hs);
                },
                None => {},
            }
            self.tails[i] = Some(idx);
            assert forall|k: int, l: int| 0 <= k < idx && 0 <= l < hs[k] implies if l < i + 1 {
                link_ok(hs, k, l, #[trigger] self.nodes@[k].next@[l])
            } else {
                self.nodes@[k].next@[l] == old(self).nodes@[k].next@[l]
            } by {
                assert(hs[k] == before[k].next@.len());
                if l == i {
                    assert(link_ok(hs_old, k, l, old(self).nodes@[k].next@[l]));
                    assert(before[k].next@[l] == old(self).nodes@[k].next@[l]);
                } else {
                    assert(self.nodes@[k].next@[l] == before[k].next@[l]);
                }
            }
            i += 1;
        }
        if self.head.is_none() {
            self.head = Some(idx);
        }
        self.length = self.nodes.len() as u64;
        proof {
            assert forall|k: int, l: int|
                0 <= k < self.nodes@.len() && 0 <= l < self.nodes@[k].next@.len() implies link_ok(
                self.heights(),
                k,
                l,
                #[trigger] self.nodes@[k].next@[l],
            ) by {
                assert(hs[k] == self.nodes@[k].next@.len());
                if k < idx && l >= height {
                    assert(link_ok(hs_old, k, l, old(self).nodes@[k].next@[l]));
                }
            }
            assert forall|l: int| 0 <= l < self.tails@.len() implies tail_ok(
                self.heights(),
                l,
                #[trigger] self.tails@[l],
            ) by {
                if l >= height {
                    assert(tail_ok(hs_old, l, old(self).tails@[l]));
                }
            }
            assert forall|k: int| 0 <= k < self.nodes@.len() implies
                1 <= (#[trigger] self.nodes@[k]).next@.len() <= self.tails@.len()
                && self.nodes@[k].pos == k by {
                assert(hs[k] == self.nodes@[k].next@.len());
                if k < idx {
                    assert(hs_old[k] == old(self).nodes@[k].next@.len());
                    assert(self.nodes@[k].pos == old(self).nodes@[k].pos);
                }
            }
            assert(hs[0] == self.nodes@[0].next@.len());
            if idx > 0 {
                assert(hs_old[0] == old(self).nodes@[0].next@.len());
            }
            assert(self@ =~= old(self)@.push(
                Record {
                    offset,
                    data: payload,
                    height: if old(self)@.len() == 0 {
                        old(self).lanes()
                    } else {
                        (level + 1) as nat
                    },
                },
            )) by {
                assert forall|k: int| 0 <= k < idx implies self@[k] == old(self)@[k] by {
                    assert(hs[k] == self.nodes@[k].next@.len());
                    assert(hs_old[k] == old(self).nodes@[k].next@.len());
                    assert(self.nodes@[k].data == old(self).nodes@[k].data);
                }
                assert(hs[idx as int] == self.nodes@[idx as int].next@.len());
            }
        }
    }

    /// Draws a lane index by flipping a coin: each head climbs one lane, and
    /// the first tail or the top lane ends the climb. Hands back the lane
    /// together with the flips it drew, one more than the lanes climbed.
    fn get_level(&self) -> (drawn: (usize, Ghost<Seq<bool>>))
        ensures
            drawn.0 <= self.max_level_idx,
            drawn.0 == climb(drawn.1@, self.max_level_idx as nat),
            drawn.1@.len() == drawn.0 + 1,
            forall|i: int| 0 <= i < drawn.0 ==> drawn.1@[i],
            drawn.0 < self.max_level_idx ==> !drawn.1@[drawn.0 as int],
    {
        let mut n: usize = 0;
        let mut rng = rand::thread_rng();
        let ghost mut flips: Seq<bool> = Seq::empty();
        loop
            invariant_except_break
                flips.len() == n,
            invariant
                n <= self.max_level_idx,
                forall|i: int| 0 <= i < n ==> flips[i],
            ensures
                flips.len() == n + 1,
                n < self.max_level_idx ==> !flips[n as int],
            decreases self.max_level_idx - n,
        {
            let heads = flip(&mut rng);
            proof {
                flips = flips.push(heads);
            }
            if !(heads && n < self.max_level_idx) {
                break;
            }
            n += 1;
        }
        proof {
            lemma_climb_counts_heads(flips, self.max_level_idx as nat, n as nat);
        }
        (n, Ghost(flips))
    }

    /// Appends a record. The first record of a list goes on every lane; each
    /// later one goes on lane 0 and climbs further by coin flips.
    pub fn append(&mut self, offset: u64, data: String)
        requires
            old(self).wf(),
        ensures
            final(self).wf(),
            final(self).lanes() == old(self).lanes(),
            final(self)@.len() == old(self)@.len() + 1,
            final(self)@.drop_last() == old(self)@,
            final(self)@.last().offset == offset,
            final(self)@.last().data == data@,
            1 <= final(self)@.last().height <= old(self).lanes(),
            old(self)@.len() == 0 ==> final(self)@.last().height == old(self).lanes(),
    {
        let level = if self.head.is_none() {
            self.max_level_idx
        } else {
            self.get_level().0
        };
        let ghost rec = Record {
            offset,
            data: data@,
            height: if self@.len() == 0 {
                self.lanes()
            } else {
                (level + 1) as nat
            },
        };
        self.append_at_level(offset, data, level);
        assert(self@.drop_last() =~= old(self)@);
        assert(self@.last() == rec);
    }

    /// Appends a record only where the list is empty or the offset is greater
    /// than that of the last record, and says whether it did. A list filled
    /// in this way alone has strictly growing offsets.
    pub fn try_append(&mut self, offset: u64, data: String) -> (accepted: bool)
        requires
            old(self).wf(),
        ensures
            final(self).wf(),
            final(self).lanes() == old(self).lanes(),
            accepted <==> (old(self)@.len() == 0 || old(self)@.last().offset < offset),
            !accepted ==> final(self)@ == old(self)@,
            accepted ==> final(self)@.len() == old(self)@.len() + 1 && final(self)@.drop_last()
                == old(self)@ && final(self)@.last().offset == offset && final(self)@.last().data
                == data@ && 1 <= final(self)@.last().height <= old(self).lanes(),
            accepted && old(self)@.len() == 0 ==> final(self)@.last().height == old(self).lanes(),
            accepted && ascending(old(self)@) ==> ascending(final(self)@),
    {
        let count: usize = self.nodes.len();
        if count > 0 && self.nodes[count - 1].offset >= offset {
            assert(self@.last().offset == self.nodes@[count - 1].offset);
            return false;
        }
        proof {
            if count > 0 {
                assert(self@.last().offset == self.nodes@[count - 1].offset);
            }
        }
        self.append(offset, data);
        proof {
            assert(self@ =~= old(self)@.push(self@.last()));
            if ascending(old(self)@) {
                lemma_append_keeps_ascending(old(self)@, self@.last());
            }
        }
        true
    }

    /// Walks lane `level` forward from record `from` for as long as the next
    /// record on the lane has an offset of at most `offset`.
    fn walk(&self, from: usize, level: usize, offset: u64) -> (n: usize)
        requires
            self.wf(),
            from < self.nodes@.len(),
            level < self.nodes@[from as int].next@.len(),
        ensures
            from <= n < self.nodes@.len(),
            level < self.nodes@[n as int].next@.len(),
            n == walk_end(self@, level as nat, from as int, offset),
    {
        let ghost hs = self.heights();
        let ghost recs = self@;
        let mut n: usize = from;
        loop
            invariant
                self.wf(),
                hs == self.heights(),
                recs == self@,
                from <= n < self.nodes@.len(),
                level < self.nodes@[n as int].next@.len(),
                walk_end(recs, level as nat, n as int, offset) == walk_end(
                    recs,
                    level as nat,
                    from as int,
                    offset,
                ),
            ensures
                n == walk_end(recs, level as nat, from as int, offset),
            decreases self.nodes@.len() - n,
        {
            assert(link_ok(hs, n as int, level as int, self.nodes@[n as int].next@[level as int]));
            match self.nodes[n].next[level] {
                Some(t) => {
                    proof {
                        assert forall|k: int| n + 1 <= k < t implies (#[trigger] recs[k]).height
                            <= level by {
                            assert(recs[k].height == hs[k]);
                        }
                        assert(recs[t as int].height == hs[t as int]);
                        assert(recs[t as int].offset == self.nodes@[t as int].offset);
                        lemma_next_on_lane_skips(recs, level as nat, n + 1, t as int);
                    }
                    if self.nodes[t].offset <= offset {
                        n = t;
                    } else {
                        break;
                    }
                },
                None => {
                    proof {
                        assert forall|k: int| n + 1 <= k < recs.len() implies
                            (#[trigger] recs[k]).height <= level by {
                            assert(recs[k].height == hs[k]);
                        }
                        lemma_next_on_lane_ends(recs, level as nat, n + 1);
                    }
                    break;
                },
            }
        }
        n
    }

    /// Looks `offset` up by descent: from the first record, on each lane from
    /// the highest one in use down to lane 0, walk forward while the next
    /// offset is at most `offset`, and stop at the first lane on which the
    /// walk ends on `offset` itself. Returns that record's payload and that
    /// lane.
    ///
    /// On a list whose offsets grow strictly this finds every offset that
    /// was appended and no other. On any other list the descent may pass a
    /// record by; what it comes to is still a function of the records.
    pub fn find(&self, offset: u64) -> (r: Option<(String, usize)>)
        requires
            self.wf(),
        ensures
            outcome(r) == lookup(self@, offset),
            ascending(self@) ==> answers(self@, offset, outcome(r)),
            r matches Some((d, level)) ==> exists|i: int|
                0 <= i < self@.len() && (#[trigger] self@[i]).offset == offset && self@[i].data
                    == d@ && level < self@[i].height,
    {
        let ghost hs = self.heights();
        proof {
            self.lemma_shaped();
            if ascending(self@) {
                lemma_lookup_answers(self@, self.lanes(), offset);
            }
        }
        match self.head {
            None => None,
            Some(head) => {
                let mut start_level: usize = self.max_level_idx;
                while start_level > 0 && self.nodes[head].next[start_level].is_none()
                    invariant
                        self.wf(),
                        hs == self.heights(),
                        head == 0,
                        self.nodes@.len() > 0,
                        start_level <= self.max_level_idx,
                        forall|k: int| 0 < k < self.nodes@.len() ==> #[trigger] hs[k] <= start_level + 1,
                    decreases start_level,
                {
                    assert(link_ok(hs, 0, start_level as int, self.nodes@[0].next@[start_level as int]));
                    start_level -= 1;
                }
                proof {
                    self.lemma_entry(start_level);
                    lemma_lookup_from_entry(self@, start_level as nat, offset);
                }
                let mut n: usize = head;
                let mut level: usize = start_level;
                loop
                    invariant
                        self.wf(),
                        n < self.nodes@.len(),
                        level < self.nodes@[n as int].next@.len(),
                        descend(self@, level as nat, n as int, offset) == lookup(self@, offset),
                        ascending(self@) ==> answers(self@, offset, lookup(self@, offset)),
                    decreases level,
                {
                    n = self.walk(n, level, offset);
                    assert(self@[n as int].offset == self.nodes@[n as int].offset);
                    if self.nodes[n].offset == offset {
                        let data = self.nodes[n].data.clone();
                        assert(self@[n as int].data == data@ && level < self@[n as int].height);
                        return Some((data, level));
                    }
                    if level == 0 {
                        return None;
                    }
                    level -= 1;
                }
            },
        }
    }

    /// The lane found by scanning the first record's links from the top is
    /// the lane on which a descent starts.
    proof fn lemma_entry(&self, start_level: usize)
        requires
            self.wf(),
            self.nodes@.len() > 0,
            start_level <= self.max_level_idx,
            forall|k: int| 0 < k < self.nodes@.len() ==> #[trigger] self.heights()[k] <= start_level + 1,
            start_level == 0 || self.nodes@[0].next@[start_level as int].is_some(),
        ensures
            entry_level(self@, start_level as nat),
    {
        let hs = self.heights();
        let recs = self@;
        assert forall|k: int| 0 < k < recs.len() implies (#[trigger] recs[k]).height <= start_level
            + 1 by {
            assert(recs[k].height == hs[k]);
        }
        if start_level > 0 {
            assert(link_ok(hs, 0, start_level as int, self.nodes@[0].next@[start_level as int]));
            let j = self.nodes@[0].next@[start_level as int].unwrap() as int;
            assert(recs[j].height == hs[j]);
            assert(0 < j < recs.len() && recs[j].height == start_level + 1);
        }
    }

    /// The row of lane `level` in the picture of a search for `offset` that
    /// ended on lane `found_level`.
    fn level_row(&self, level: usize, offset: u64, found_level: usize) -> (cells: Vec<PathCell>)
        requires
            self.wf(),
            self.nodes@.len() > 0,
            level < self.lanes(),
        ensures
            row_model(cells) == path_row(self@, level as nat, offset, found_level as nat),
    {
        let ghost hs = self.heights();
        let ghost recs = self@;
        let ghost lv = level as nat;
        let ghost fl = found_level as nat;
        let mut cells: Vec<PathCell> = Vec::new();
        cells.push(PathCell::Label(level));
        let mut n: usize = 0;
        let mut pos: u64 = 0;
        loop
            invariant_except_break
                n < self.nodes@.len(),
                level < self.nodes@[n as int].next@.len(),
                pos <= n,
                forall|k: int| pos <= k < n ==> (#[trigger] recs[k]).height <= lv,
            invariant
                self.wf(),
                hs == self.heights(),
                recs == self@,
                lv == level,
                fl == found_level,
                cells@.len() == 1 + pos,
                cells@[0]@ == CellModel::Label(lv),
                forall|p: int| 0 <= p < pos ==> (#[trigger] cells@[1 + p])@ == cell_at(recs, lv, p, offset, fl),
            ensures
                pos <= self.nodes@.len(),
                forall|k: int| pos <= k < recs.len() ==> (#[trigger] recs[k]).height <= lv,
            decreases self.nodes@.len() - n,
        {
            assert(recs[n as int].height == self.nodes@[n as int].next@.len());
            assert(recs[n as int].offset == self.nodes@[n as int].offset);
            assert(recs[n as int].data == self.nodes@[n as int].data@);
            let mut tint = if level == found_level && self.nodes[n].offset <= offset {
                Tint::Red
            } else {
                Tint::White
            };
            while self.nodes[n].pos > pos
                invariant
                    self.wf(),
                    recs == self@,
                    n < self.nodes@.len(),
                    pos <= n,
                    recs[n as int].height > lv,
                    tint == way_tint(recs[n as int], lv, offset, fl),
                    forall|k: int| pos <= k < n ==> (#[trigger] recs[k]).height <= lv,
                    cells@.len() == 1 + pos,
                    cells@[0]@ == CellModel::Label(lv),
                    forall|p: int|
                        0 <= p < pos ==> (#[trigger] cells@[1 + p])@ == cell_at(recs, lv, p, offset, fl),
                decreases n - pos,
            {
                proof {
                    lemma_next_on_lane_skips(recs, lv, pos as int, n as int);
                }
                cells.push(PathCell::Arrow(Some(tint)));
                pos += 1;
            }
            if self.nodes[n].offset == offset {
                tint = Tint::Green;
            }
            let data = self.nodes[n].data.clone();
            cells.push(PathCell::Entry(self.nodes[n].offset, data, tint));
            pos += 1;
            assert(link_ok(hs, n as int, level as int, self.nodes@[n as int].next@[level as int]));
            match self.nodes[n].next[level] {
                Some(t) => {
                    assert forall|k: int| pos <= k < t implies (#[trigger] recs[k]).height <= lv by {
                        assert(recs[k].height == hs[k]);
                    }
                    assert(hs[t as int] == self.nodes@[t as int].next@.len());
                    n = t;
                },
                None => {
                    assert forall|k: int| pos <= k < recs.len() implies (#[trigger] recs[k]).height
                        <= lv by {
                        assert(recs[k].height == hs[k]);
                    }
                    break;
                },
            }
        }
        while self.length > pos
            invariant
                self.wf(),
                recs == self@,
                pos <= self.nodes@.len(),
                forall|k: int| pos <= k < recs.len() ==> (#[trigger] recs[k]).height <= lv,
                cells@.len() == 1 + pos,
                cells@[0]@ == CellModel::Label(lv),
                forall|p: int| 0 <= p < pos ==> (#[trigger] cells@[1 + p])@ == cell_at(recs, lv, p, offset, fl),
            decreases self.length - pos,
        {
            proof {
                lemma_next_on_lane_ends(recs, lv, pos as int);
            }
            cells.push(PathCell::Arrow(None));
            pos += 1;
        }
        proof {
            let want = path_row(recs, lv, offset, fl);
            let got = row_model(cells);
            assert(got.len() == want.len());
            assert forall|i: int| 0 <= i < got.len() implies got[i] == want[i] by {
                if i > 0 {
                    assert(cells@[1 + (i - 1)]@ == cell_at(recs, lv, i - 1, offset, fl));
                }
            }
            assert(got =~= want);
        }
        cells
    }

    /// The picture of a search for `offset` that ended on lane `found_level`:
    /// one row per lane, the top lane first, and no row for an empty list.
    pub fn level_path(&self, offset: u64, found_level: usize) -> (rows: Vec<Vec<PathCell>>)
        requires
            self.wf(),
        ensures
            rows@.len() == if self@.len() == 0 {
                0
            } else {
                self.lanes()
            },
            forall|r: int|
                0 <= r < rows@.len() ==> row_model(#[trigger] rows@[r]) == path_row(
                    self@,
                    (self.lanes() - 1 - r) as nat,
                    offset,
                    found_level as nat,
                ),
    {
        let mut rows: Vec<Vec<PathCell>> = Vec::new();
        if self.head.is_some() {
            let lanes: usize = self.tails.len();
            let mut level: usize = lanes;
            while level > 0
                invariant
                    self.wf(),
                    self.nodes@.len() > 0,
                    lanes == self.lanes(),
                    level <= lanes,
                    rows@.len() == lanes - level,
                    forall|r: int|
                        0 <= r < rows@.len() ==> row_model(#[trigger] rows@[r]) == path_row(
                            self@,
                            (lanes - 1 - r) as nat,
                            offset,
                            found_level as nat,
                        ),
                decreases level,
            {
                level -= 1;
                let row = self.level_row(level, offset, found_level);
                rows.push(row);
            }
        }
        rows
    }
}

} // verus!
