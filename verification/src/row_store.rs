//! `RowStore`: the join of the resident bytes ([`Memory`]) with named
//! structural lanes ([`AddressMask`]s) over the same address space. Every
//! lane is a mask over the same 65,536 addresses, never a copy of the bytes.

use vstd::prelude::*;
use crate::mask::AddressMask;
use crate::memory::Memory;

verus! {

/// A lane as the contracts see it: its name and its set of addresses.
pub type LaneView = (Seq<char>, Set<u16>);

/// `<str as PartialEq>::eq`: whether the two strings hold the same characters.
#[verifier::external_body]
fn same_name(a: &str, b: &str) -> (eq: bool)
    ensures
        eq == (a@ == b@),
{
    a == b
}

/// No two lanes share a name.
pub open spec fn names_distinct(lanes: Seq<LaneView>) -> bool {
    forall|i: int, j: int| 0 <= i < j < lanes.len() ==> lanes[i].0 != lanes[j].0
}

/// Whether some lane is named `name`.
pub open spec fn has_lane(lanes: Seq<LaneView>, name: Seq<char>) -> bool {
    exists|i: int| 0 <= i < lanes.len() && lanes[i].0 == name
}

/// The mask of the lane named `name`, if there is one.
pub open spec fn lane_named(lanes: Seq<LaneView>, name: Seq<char>) -> Option<Set<u16>> {
    if has_lane(lanes, name) {
        Some(lanes[choose|i: int| 0 <= i < lanes.len() && lanes[i].0 == name].1)
    } else {
        None
    }
}

/// The lanes other than the one named `name`, in their order.
pub open spec fn lanes_without(lanes: Seq<LaneView>, name: Seq<char>) -> Seq<LaneView> {
    lanes.filter(|l: LaneView| l.0 != name)
}

/// The lanes after attaching `(name, mask)`: any lane of that name is
/// dropped, and the new one goes last.
pub open spec fn lanes_after_add(lanes: Seq<LaneView>, name: Seq<char>, mask: Set<u16>) -> Seq<LaneView> {
    lanes_without(lanes, name).push((name, mask))
}

/// What `read_if_in_lane` answers: the byte at `addr` when the lane named
/// `name` exists and selects `addr`, nothing otherwise.
pub open spec fn read_in_lane(bytes: Seq<u8>, lanes: Seq<LaneView>, name: Seq<char>, addr: u16) -> Option<u8> {
    match lane_named(lanes, name) {
        Some(mask) => if mask.contains(addr) { Some(bytes[addr as int]) } else { None },
        None => None,
    }
}

/// With no lane named `name`, dropping that name changes nothing.
proof fn lemma_without_absent(lanes: Seq<LaneView>, name: Seq<char>)
    requires
        !has_lane(lanes, name),
    ensures
        lanes_without(lanes, name) == lanes,
    decreases lanes.len(),
{
    reveal(Seq::filter);
    if lanes.len() > 0 {
        assert(lanes.last().0 != name);
        lemma_without_absent(lanes.drop_last(), name);
        assert(lanes.drop_last().push(lanes.last()) =~= lanes);
    }
}

/// With exactly one lane named `name`, at `k`, dropping that name removes `k`.
proof fn lemma_without_single(lanes: Seq<LaneView>, name: Seq<char>, k: int)
    requires
        0 <= k < lanes.len(),
        lanes[k].0 == name,
        forall|i: int| 0 <= i < lanes.len() && i != k ==> lanes[i].0 != name,
    ensures
        lanes_without(lanes, name) == lanes.remove(k),
    decreases lanes.len(),
{
    reveal(Seq::filter);
    let init = lanes.drop_last();
    if k == lanes.len() - 1 {
        assert(!has_lane(init, name));
        lemma_without_absent(init, name);
        assert(lanes.remove(k) =~= init);
    } else {
        lemma_without_single(init, name, k);
        assert(lanes.remove(k) =~= init.remove(k).push(lanes.last()));
    }
}

/// In lanes with distinct names, the lane found under a lane's own name is
/// that lane.
proof fn lemma_lane_named_at(lanes: Seq<LaneView>, i: int)
    requires
        names_distinct(lanes),
        0 <= i < lanes.len(),
    ensures
        lane_named(lanes, lanes[i].0) == Some(lanes[i].1),
{
    assert(has_lane(lanes, lanes[i].0));
    let k = choose|k: int| 0 <= k < lanes.len() && lanes[k].0 == lanes[i].0;
    if k < i {
        assert(lanes[k].0 != lanes[i].0);
    } else if k > i {
        assert(lanes[i].0 != lanes[k].0);
    }
}

/// Dropping the lanes named `name` from lanes with distinct names leaves
/// either all of them or all but the one at `k`.
proof fn lemma_without_cases(lanes: Seq<LaneView>, name: Seq<char>) -> (k: int)
    requires
        names_distinct(lanes),
    ensures
        has_lane(lanes, name) ==> 0 <= k < lanes.len() && lanes[k].0 == name
            && lanes_without(lanes, name) == lanes.remove(k),
        !has_lane(lanes, name) ==> lanes_without(lanes, name) == lanes,
{
    if has_lane(lanes, name) {
        let k = choose|k: int| 0 <= k < lanes.len() && lanes[k].0 == name;
        assert forall|j: int| 0 <= j < lanes.len() && j != k implies lanes[j].0 != name by {
            if j < k {
                assert(lanes[j].0 != lanes[k].0);
            } else {
                assert(lanes[k].0 != lanes[j].0);
            }
        }
        lemma_without_single(lanes, name, k);
        k
    } else {
        lemma_without_absent(lanes, name);
        0
    }
}

/// After adding `(name, mask)` the names stay distinct, the new lane is last
/// and the lanes before it are the old ones other than `name`, each at its
/// position `j` or `j + 1` of the old lanes.
proof fn lemma_after_add(lanes: Seq<LaneView>, name: Seq<char>, mask: Set<u16>) -> (k: int)
    requires
        names_distinct(lanes),
    ensures
        names_distinct(lanes_after_add(lanes, name, mask)),
        lanes_after_add(lanes, name, mask).last() == (name, mask),
        has_lane(lanes, name) ==> 0 <= k < lanes.len() && lanes[k].0 == name
            && lanes_after_add(lanes, name, mask).len() == lanes.len()
            && forall|j: int| 0 <= j < lanes.len() - 1 ==> #[trigger] lanes_after_add(lanes, name, mask)[j]
                == if j < k { lanes[j] } else { lanes[j + 1] },
        !has_lane(lanes, name) ==> lanes_after_add(lanes, name, mask).len() == lanes.len() + 1
            && forall|j: int| 0 <= j < lanes.len() ==> #[trigger] lanes_after_add(lanes, name, mask)[j] == lanes[j],
{
    let k = lemma_without_cases(lanes, name);
    let after = lanes_after_add(lanes, name, mask);
    let w = lanes_without(lanes, name);
    assert forall|i: int, j: int| 0 <= i < j < after.len() implies after[i].0 != after[j].0 by {
        if j == after.len() - 1 {
            if has_lane(lanes, name) {
                let ii = if i < k { i } else { i + 1 };
                assert(w[i] == lanes[ii]);
                if ii < k {
                    assert(lanes[ii].0 != lanes[k].0);
                } else {
                    assert(lanes[k].0 != lanes[ii].0);
                }
            } else {
                assert(w[i] == lanes[i]);
            }
        } else if has_lane(lanes, name) {
            let ii = if i < k { i } else { i + 1 };
            let jj = if j < k { j } else { j + 1 };
            assert(w[i] == lanes[ii]);
            assert(w[j] == lanes[jj]);
        }
    }
    k
}

/// A named mask over the resident address space (such as "instruction
/// starts" or "code vs data").
pub struct Lane {
    name: &'static str,
    mask: AddressMask,
}

impl View for Lane {
    type V = LaneView;

    closed spec fn view(&self) -> LaneView {
        (self.name@, self.mask@)
    }
}

impl Lane {
    pub fn new(name: &'static str, mask: AddressMask) -> (lane: Lane)
        ensures
            lane@ == (name@, mask@),
    {
        Lane { name, mask }
    }

    pub fn name(&self) -> (name: &'static str)
        ensures
            name@ == self@.0,
    {
        self.name
    }

    pub fn mask(&self) -> (mask: &AddressMask)
        ensures
            mask@ == self@.1,
    {
        &self.mask
    }
}

/// One [`Memory`] (the byte lane) joined with named [`Lane`]s.
pub struct RowStore {
    memory: Memory,
    lanes: Vec<Lane>,
}

impl RowStore {
    /// The resident bytes.
    pub closed spec fn bytes(&self) -> Seq<u8> {
        self.memory@
    }

    /// The attached lanes, in the order they are kept.
    pub closed spec fn lanes(&self) -> Seq<LaneView> {
        self.lanes@.map_values(|l: Lane| l@)
    }

    #[verifier::type_invariant]
    closed spec fn lane_names_distinct(&self) -> bool {
        names_distinct(self.lanes())
    }

    /// Take ownership of a [`Memory`], with no lanes yet.
    pub fn new(memory: Memory) -> (store: RowStore)
        ensures
            store.bytes() == memory@,
            store.lanes() == Seq::<LaneView>::empty(),
            names_distinct(store.lanes()),
    {
        let store = RowStore { memory, lanes: Vec::new() };
        assert(store.lanes() =~= Seq::<LaneView>::empty());
        store
    }

    /// Borrow the byte lane.
    pub fn memory(&self) -> (memory: &Memory)
        ensures
            memory@ == self.bytes(),
            names_distinct(self.lanes()),
    {
        proof {
            use_type_invariant(self);
        }
        &self.memory
    }

    /// Attach a named lane, replacing any lane of the same name.
    pub fn add_lane(&mut self, name: &'static str, mask: AddressMask)
        ensures
            final(self).lanes() == lanes_after_add(old(self).lanes(), name@, mask@),
            final(self).bytes() == old(self).bytes(),
            names_distinct(old(self).lanes()),
            names_distinct(final(self).lanes()),
    {
        proof {
            use_type_invariant(&*self);
        }
        let ghost before = self.lanes();
        assert(names_distinct(before));
        let mut lanes: Vec<Lane> = Vec::new();
        std::mem::swap(&mut lanes, &mut self.lanes);
        assert(lanes@.map_values(|l: Lane| l@) == before);
        let n = lanes.len();
        let mut i: usize = 0;
        while i < n
            invariant
                n == lanes@.len(),
                before == lanes@.map_values(|l: Lane| l@),
                i <= n,
                forall|j: int| 0 <= j < i ==> #[trigger] before[j].0 != name@,
            ensures
                i <= n,
                forall|j: int| 0 <= j < i ==> #[trigger] before[j].0 != name@,
                i < n ==> before[i as int].0 == name@,
            decreases n - i,
        {
            if same_name(lanes[i].name, name) {
                assert(before[i as int] == lanes@[i as int]@);
                break;
            }
            assert(before[i as int] == lanes@[i as int]@);
            i = i + 1;
        }
        if i < n {
            assert(before[i as int] == lanes@[i as int]@);
            proof {
                assert forall|j: int| 0 <= j < before.len() && j != i implies before[j].0 != name@ by {
                    if j > i {
                        assert(before[i as int].0 != before[j].0);
                    }
                }
                lemma_without_single(before, name@, i as int);
            }
            let _dropped = lanes.remove(i);
            assert(lanes@.map_values(|l: Lane| l@) =~= before.remove(i as int));
        } else {
            proof {
                lemma_without_absent(before, name@);
            }
        }
        let ghost kept = lanes@.map_values(|l: Lane| l@);
        assert(kept =~= lanes_without(before, name@));
        proof {
            assert forall|j: int| 0 <= j < kept.len() implies #[trigger] kept[j].0 != name@ by {
                if i < n {
                    if j < i {
                        assert(kept[j] == before[j]);
                    } else {
                        assert(kept[j] == before[j + 1]);
                    }
                } else {
                    assert(kept[j] == before[j]);
                }
            }
        }
        lanes.push(Lane::new(name, mask));
        assert(lanes@.map_values(|l: Lane| l@) =~= lanes_after_add(before, name@, mask@));
        self.lanes = lanes;
    }

    /// Look up a lane by name.
    pub fn lane(&self, name: &str) -> (lane: Option<&Lane>)
        ensures
            match lane {
                Some(l) => l@.0 == name@ && lane_named(self.lanes(), name@) == Some(l@.1),
                None => lane_named(self.lanes(), name@) is None,
            },
            names_distinct(self.lanes()),
    {
        proof {
            use_type_invariant(self);
        }
        let n = self.lanes.len();
        let mut i: usize = 0;
        while i < n
            invariant
                n == self.lanes@.len(),
                i <= n,
                names_distinct(self.lanes()),
                forall|j: int| 0 <= j < i ==> #[trigger] self.lanes()[j].0 != name@,
            decreases n - i,
        {
            let l = &self.lanes[i];
            if same_name(l.name, name) {
                proof {
                    let lanes = self.lanes();
                    assert(lanes[i as int] == l@);
                    assert(has_lane(lanes, name@));
                    let k = choose|k: int| 0 <= k < lanes.len() && lanes[k].0 == name@;
                    assert(k == i) by {
                        if k != i {
                            if k < i {
                                assert(lanes[k].0 != lanes[i as int].0);
                            } else {
                                assert(lanes[i as int].0 != lanes[k].0);
                            }
                        }
                    }
                }
                return Some(l);
            }
            assert(self.lanes()[i as int] == self.lanes@[i as int]@);
            i = i + 1;
        }
        None
    }

    /// Number of attached lanes.
    pub fn lane_count(&self) -> (count: usize)
        ensures
            count == self.lanes().len(),
            names_distinct(self.lanes()),
    {
        proof {
            use_type_invariant(self);
        }
        self.lanes.len()
    }

    /// Read the byte at `addr` if `addr` is selected in the named lane.
    pub fn read_if_in_lane(&self, lane_name: &str, addr: u16) -> (value: Option<u8>)
        ensures
            value == read_in_lane(self.bytes(), self.lanes(), lane_name@, addr),
            value is Some <==> (lane_named(self.lanes(), lane_name@) is Some
                && lane_named(self.lanes(), lane_name@).unwrap().contains(addr)),
            value matches Some(v) ==> v == self.bytes()[addr as int],
            names_distinct(self.lanes()),
    {
        proof {
            use_type_invariant(self);
        }
        let lane = self.lane(lane_name)?;
        if lane.mask().contains(addr) {
            Some(self.memory.read(addr))
        } else {
            None
        }
    }
}

/// After a lane is added under a name, looking that name up finds exactly
/// the mask just added.
pub proof fn law_added_lane_is_found(lanes: Seq<LaneView>, name: Seq<char>, mask: Set<u16>)
    requires
        names_distinct(lanes),
    ensures
        lane_named(lanes_after_add(lanes, name, mask), name) == Some(mask),
{
    lemma_after_add(lanes, name, mask);
    let after = lanes_after_add(lanes, name, mask);
    lemma_lane_named_at(after, after.len() - 1);
}

/// Adding a lane under a name already present replaces that lane (the
/// number of lanes stays the same); under a new name it adds one lane.
pub proof fn law_add_lane_replaces_not_duplicates(lanes: Seq<LaneView>, name: Seq<char>, mask: Set<u16>)
    requires
        names_distinct(lanes),
    ensures
        lanes_after_add(lanes, name, mask).len() == if has_lane(lanes, name) {
            lanes.len()
        } else {
            lanes.len() + 1
        },
{
    lemma_after_add(lanes, name, mask);
}

/// Adding a lane leaves the lookup of every other name unchanged.
pub proof fn law_add_lane_keeps_other_lanes(
    lanes: Seq<LaneView>,
    name: Seq<char>,
    mask: Set<u16>,
    other: Seq<char>,
)
    requires
        names_distinct(lanes),
        other != name,
    ensures
        lane_named(lanes_after_add(lanes, name, mask), other) == lane_named(lanes, other),
{
    let k = lemma_after_add(lanes, name, mask);
    let after = lanes_after_add(lanes, name, mask);
    if has_lane(lanes, other) {
        let j = choose|j: int| 0 <= j < lanes.len() && lanes[j].0 == other;
        lemma_lane_named_at(lanes, j);
        if has_lane(lanes, name) {
            assert(j != k);
            let i = if j < k { j } else { j - 1 };
            assert(after[i] == lanes[j]);
            lemma_lane_named_at(after, i);
        } else {
            assert(after[j] == lanes[j]);
            lemma_lane_named_at(after, j);
        }
    } else {
        assert forall|i: int| 0 <= i < after.len() implies after[i].0 != other by {
            if i < after.len() - 1 {
                if has_lane(lanes, name) {
                    let ii = if i < k { i } else { i + 1 };
                    assert(after[i] == lanes[ii]);
                } else {
                    assert(after[i] == lanes[i]);
                }
            }
        }
    }
}

/// Adding a lane keeps the lane names distinct.
pub proof fn law_add_lane_keeps_names_distinct(lanes: Seq<LaneView>, name: Seq<char>, mask: Set<u16>)
    requires
        names_distinct(lanes),
    ensures
        names_distinct(lanes_after_add(lanes, name, mask)),
{
    lemma_after_add(lanes, name, mask);
}

/// The lanes of a store built by `RowStore::new` followed by one
/// `add_lane(name, mask)` for each entry of `adds`, in order.
pub open spec fn lanes_after_adds(adds: Seq<LaneView>) -> Seq<LaneView>
    decreases adds.len(),
{
    if adds.len() == 0 {
        Seq::empty()
    } else {
        lanes_after_add(lanes_after_adds(adds.drop_last()), adds.last().0, adds.last().1)
    }
}

/// The mask of the last entry of `adds` named `name`, if any entry is.
pub open spec fn last_added(adds: Seq<LaneView>, name: Seq<char>) -> Option<Set<u16>>
    decreases adds.len(),
{
    if adds.len() == 0 {
        None
    } else if adds.last().0 == name {
        Some(adds.last().1)
    } else {
        last_added(adds.drop_last(), name)
    }
}

/// The names used by the entries of `adds`.
pub open spec fn added_names(adds: Seq<LaneView>) -> Set<Seq<char>> {
    adds.map_values(|l: LaneView| l.0).to_set()
}

proof fn lemma_added_names_push(adds: Seq<LaneView>)
    requires
        adds.len() > 0,
    ensures
        added_names(adds) == added_names(adds.drop_last()).insert(adds.last().0),
        added_names(adds.drop_last()).finite(),
{
    let init = adds.drop_last();
    assert(adds.map_values(|l: LaneView| l.0) =~= init.map_values(|l: LaneView| l.0).push(adds.last().0));
    init.map_values(|l: LaneView| l.0).lemma_push_to_set_commute(adds.last().0);
    vstd::seq_lib::seq_to_set_is_finite(init.map_values(|l: LaneView| l.0));
}

proof fn lemma_last_added_in_names(adds: Seq<LaneView>, name: Seq<char>)
    ensures
        last_added(adds, name) is Some <==> added_names(adds).contains(name),
    decreases adds.len(),
{
    if adds.len() > 0 {
        lemma_added_names_push(adds);
        lemma_last_added_in_names(adds.drop_last(), name);
    } else {
        assert(added_names(adds) =~= Set::<Seq<char>>::empty());
    }
}

/// After any sequence of `add_lane` calls on a fresh store, the lane names
/// are distinct, there is one lane per name used, and each name looks up
/// the mask of the last call that used it (names never used look up
/// nothing).
pub proof fn law_lanes_after_adds(adds: Seq<LaneView>)
    ensures
        names_distinct(lanes_after_adds(adds)),
        lanes_after_adds(adds).len() == added_names(adds).len(),
        forall|name: Seq<char>| #[trigger] lane_named(lanes_after_adds(adds), name) == last_added(adds, name),
    decreases adds.len(),
{
    if adds.len() == 0 {
        assert(added_names(adds) =~= Set::<Seq<char>>::empty());
    } else {
        let init = adds.drop_last();
        let (name, mask) = adds.last();
        law_lanes_after_adds(init);
        let prev = lanes_after_adds(init);
        law_add_lane_keeps_names_distinct(prev, name, mask);
        law_add_lane_replaces_not_duplicates(prev, name, mask);
        law_added_lane_is_found(prev, name, mask);
        assert forall|other: Seq<char>| #[trigger] lane_named(lanes_after_adds(adds), other) == last_added(adds, other) by {
            if other != name {
                law_add_lane_keeps_other_lanes(prev, name, mask, other);
            }
        }
        lemma_added_names_push(adds);
        lemma_last_added_in_names(init, name);
        assert(lane_named(prev, name) == last_added(init, name));
        assert(has_lane(prev, name) <==> lane_named(prev, name) is Some);
    }
}

/// A gated read answers with a byte exactly when the named lane exists and
/// selects the address asked for (a lane that selects nothing answers
/// nothing), and the byte it answers with is the resident byte at that very
/// address, the one `Memory::read` gives there.
pub proof fn law_gated_read(bytes: Seq<u8>, lanes: Seq<LaneView>, name: Seq<char>, addr: u16)
    ensures
        read_in_lane(bytes, lanes, name, addr) is Some <==> (exists|mask: Set<u16>|
            lane_named(lanes, name) == Some(mask) && #[trigger] mask.contains(addr)),
        forall|v: u8| read_in_lane(bytes, lanes, name, addr) == Some(v) ==> v == bytes[addr as int],
        lane_named(lanes, name) matches Some(mask) && !mask.contains(addr)
            ==> read_in_lane(bytes, lanes, name, addr) is None,
        lane_named(lanes, name) is None ==> read_in_lane(bytes, lanes, name, addr) is None,
{
    if let Some(mask) = lane_named(lanes, name) {
        if mask.contains(addr) {
            assert(lane_named(lanes, name) == Some(mask) && mask.contains(addr));
        }
    }
}

} // verus!
