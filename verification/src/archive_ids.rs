//! The index of archive ids: which archive holds the blocks of a
//! masterchain sequence number.
//!
//! An archive is named by the masterchain sequence number of its first
//! block. A new archive starts at every key block and whenever the current
//! one has taken [`ARCHIVE_PACKAGE_SIZE`] sequence numbers; where no archive
//! is registered yet, the sequence number rounded down to a multiple of
//! [`ARCHIVE_SLICE_SIZE`] names one.

use vstd::prelude::*;

verus! {

/// Number of masterchain sequence numbers that one archive spans.
pub const ARCHIVE_PACKAGE_SIZE: u32 = 100;

/// Alignment of the archives that are named without being registered.
pub const ARCHIVE_SLICE_SIZE: u32 = 20_000;

/// Whether `m` is the greatest id of `ids` that is not above `x`.
pub open spec fn is_floor(ids: Set<u32>, x: u32, m: u32) -> bool {
    &&& ids.contains(m)
    &&& m <= x
    &&& forall|id: u32| ids.contains(id) && id <= x ==> id <= m
}

/// The greatest id of `ids` that is not above `x`, if there is one.
pub open spec fn floor_of(ids: Set<u32>, x: u32) -> Option<u32> {
    if exists|m: u32| is_floor(ids, x, m) {
        Some(choose|m: u32| is_floor(ids, x, m))
    } else {
        None
    }
}

/// Whether `m` is the greatest id of `ids` that is below `x`.
pub open spec fn is_below(ids: Set<u32>, x: u32, m: u32) -> bool {
    &&& ids.contains(m)
    &&& m < x
    &&& forall|id: u32| ids.contains(id) && id < x ==> id <= m
}

/// The archive in which the blocks of `mc_seq_no` are looked up: the
/// greatest registered id that is not above `mc_seq_no`, provided that
/// `mc_seq_no` lies within the span of an archive from it.
pub open spec fn archive_of(ids: Set<u32>, mc_seq_no: u32) -> Option<u32> {
    match floor_of(ids, mc_seq_no) {
        Some(id) => if mc_seq_no - id < ARCHIVE_PACKAGE_SIZE {
            Some(id)
        } else {
            None
        },
        None => None,
    }
}

/// `mc_seq_no` rounded down to a multiple of [`ARCHIVE_SLICE_SIZE`].
pub open spec fn aligned(mc_seq_no: u32) -> u32 {
    ((mc_seq_no / ARCHIVE_SLICE_SIZE) * ARCHIVE_SLICE_SIZE) as u32
}

/// The id that continues the archives of `ids` at `mc_seq_no`: the
/// greatest registered id that is not above `mc_seq_no`, or the aligned id
/// where that is greater or nothing is registered.
pub open spec fn current_archive(ids: Set<u32>, mc_seq_no: u32) -> u32 {
    match floor_of(ids, mc_seq_no) {
        Some(id) => if aligned(mc_seq_no) < id {
            id
        } else {
            aligned(mc_seq_no)
        },
        None => aligned(mc_seq_no),
    }
}

/// The archive that takes a block of `mc_seq_no`: a new one, named
/// `mc_seq_no`, for a key block and where the current one is full, else the
/// current one.
pub open spec fn assigned_archive(ids: Set<u32>, mc_seq_no: u32, is_key_block: bool) -> u32 {
    if is_key_block || mc_seq_no - current_archive(ids, mc_seq_no) >= ARCHIVE_PACKAGE_SIZE {
        mc_seq_no
    } else {
        current_archive(ids, mc_seq_no)
    }
}

/// The ids that are registered once a block of `mc_seq_no` has been
/// assigned its archive: a new archive is registered, the current one is
/// left as it is.
pub open spec fn ids_after_assignment(ids: Set<u32>, mc_seq_no: u32, is_key_block: bool) -> Set<
    u32,
> {
    if assigned_archive(ids, mc_seq_no, is_key_block) == mc_seq_no && (is_key_block || mc_seq_no
        - current_archive(ids, mc_seq_no) >= ARCHIVE_PACKAGE_SIZE) {
        ids.insert(mc_seq_no)
    } else {
        ids
    }
}

/// The registered archive ids, in ascending order.
pub struct ArchiveIds {
    /// The ids, each once, the smallest first.
    pub ids: Vec<u32>,
}

/// Whether `ids` is strictly ascending.
pub open spec fn ascending(ids: Seq<u32>) -> bool {
    forall|i: int, j: int| 0 <= i < j < ids.len() ==> ids[i] < ids[j]
}

impl View for ArchiveIds {
    type V = Set<u32>;

    open spec fn view(&self) -> Set<u32> {
        self.ids@.to_set()
    }
}

impl ArchiveIds {
    /// The ids are in strictly ascending order.
    pub open spec fn wf(&self) -> bool {
        ascending(self.ids@)
    }

    /// An index without ids.
    pub fn new() -> (index: Self)
        ensures
            index.wf(),
            index@ == Set::<u32>::empty(),
    {
        let index = ArchiveIds { ids: Vec::new() };
        assert(index@ =~= Set::<u32>::empty());
        index
    }

    /// Number of registered ids.
    pub fn len(&self) -> (n: usize)
        requires
            self.wf(),
        ensures
            n == self@.len(),
            self@.finite(),
    {
        proof {
            assert(self.ids@.no_duplicates());
            self.ids@.unique_seq_to_set();
        }
        self.ids.len()
    }

    /// Number of ids that are not above `x`. The ids below that position
    /// are the ones not above `x`.
    fn count_at_most(&self, x: u32) -> (n: usize)
        requires
            self.wf(),
        ensures
            n <= self.ids@.len(),
            forall|i: int| 0 <= i < n ==> self.ids@[i] <= x,
            forall|i: int| n <= i < self.ids@.len() ==> self.ids@[i] > x,
    {
        let mut low: usize = 0;
        let mut high: usize = self.ids.len();
        while low < high
            invariant
                self.wf(),
                low <= high <= self.ids@.len(),
                forall|i: int| 0 <= i < low ==> self.ids@[i] <= x,
                forall|i: int| high <= i < self.ids@.len() ==> self.ids@[i] > x,
            decreases high - low,
        {
            let mid: usize = low + (high - low) / 2;
            if self.ids[mid] <= x {
                low = mid + 1;
            } else {
                high = mid;
            }
        }
        low
    }

    /// Whether `id` is registered.
    pub fn contains(&self, id: u32) -> (found: bool)
        requires
            self.wf(),
        ensures
            found == self@.contains(id),
    {
        let n = self.count_at_most(id);
        if n > 0 && self.ids[n - 1] == id {
            true
        } else {
            assert(!self@.contains(id)) by {
                if self@.contains(id) {
                    let i = choose|i: int| 0 <= i < self.ids@.len() && self.ids@[i] == id;
                    if i < n - 1 {
                        assert(self.ids@[i] < self.ids@[n - 1]);
                    }
                }
            }
            false
        }
    }

    /// The greatest registered id that is not above `x`.
    pub fn latest_at_most(&self, x: u32) -> (found: Option<u32>)
        requires
            self.wf(),
        ensures
            found == floor_of(self@, x),
            found is Some ==> is_floor(self@, x, found->0),
    {
        let n = self.count_at_most(x);
        if n == 0 {
            assert(floor_of(self@, x) is None) by {
                if exists|m: u32| is_floor(self@, x, m) {
                    let m = choose|m: u32| is_floor(self@, x, m);
                    let i = choose|i: int| 0 <= i < self.ids@.len() && self.ids@[i] == m;
                }
            }
            None
        } else {
            let m = self.ids[n - 1];
            proof {
                self.lemma_floor(x, n as int);
            }
            Some(m)
        }
    }

    /// Where `n` ids stand in front of the first id above `x`, the last of
    /// them is the floor of `x`.
    proof fn lemma_floor(&self, x: u32, n: int)
        requires
            self.wf(),
            0 < n <= self.ids@.len(),
            forall|i: int| 0 <= i < n ==> self.ids@[i] <= x,
            forall|i: int| n <= i < self.ids@.len() ==> self.ids@[i] > x,
        ensures
            is_floor(self@, x, self.ids@[n - 1]),
            floor_of(self@, x) == Some(self.ids@[n - 1]),
    {
        let m = self.ids@[n - 1];
        assert(self@.contains(m));
        assert forall|id: u32| self@.contains(id) && id <= x implies id <= m by {
            let i = choose|i: int| 0 <= i < self.ids@.len() && self.ids@[i] == id;
            if i < n - 1 {
                assert(self.ids@[i] < self.ids@[n - 1]);
            }
        }
        assert(is_floor(self@, x, m));
        let c = choose|c: u32| is_floor(self@, x, c);
        assert(is_floor(self@, x, c));
        assert(c == m);
    }

    /// Registers `id`, unless it is registered already.
    pub fn insert(&mut self, id: u32)
        requires
            old(self).wf(),
        ensures
            final(self).wf(),
            final(self)@ == old(self)@.insert(id),
    {
        let n = self.count_at_most(id);
        if n > 0 && self.ids[n - 1] == id {
            assert(self@.contains(id));
            assert(self@ =~= old(self)@.insert(id));
            return ;
        }
        self.ids.insert(n, id);
        proof {
            let before = old(self).ids@;
            let after = self.ids@;
            assert forall|i: int, j: int| 0 <= i < j < after.len() implies after[i] < after[j] by {
                let i0 = if i < n { i } else { i - 1 };
                let j0 = if j < n { j } else { j - 1 };
                if i != n && j != n {
                    assert(before[i0] < before[j0]);
                } else if i == n {
                    assert(before[j0] > id);
                } else {
                    if n > 0 {
                        assert(before[i0] <= before[n - 1]) by {
                            if i0 < n - 1 {
                                assert(before[i0] < before[n - 1]);
                            }
                        }
                    }
                }
            }
            assert forall|v: u32| self@.contains(v) <==> old(self)@.insert(id).contains(v) by {
                if self@.contains(v) {
                    let i = choose|i: int| 0 <= i < after.len() && after[i] == v;
                    if i < n {
                        assert(before[i] == v);
                    } else if i > n {
                        assert(before[i - 1] == v);
                    }
                }
                if old(self)@.contains(v) {
                    let i = choose|i: int| 0 <= i < before.len() && before[i] == v;
                    if i < n {
                        assert(after[i] == v);
                    } else {
                        assert(after[i + 1] == v);
                    }
                }
                if v == id {
                    assert(after[n as int] == v);
                }
            }
            assert(self@ =~= old(self)@.insert(id));
        }
    }

    /// The archive in which the blocks of `mc_seq_no` are looked up.
    pub fn get_archive_id(&self, mc_seq_no: u32) -> (found: Option<u32>)
        requires
            self.wf(),
        ensures
            found == archive_of(self@, mc_seq_no),
            found is Some ==> self@.contains(found->0) && found->0 <= mc_seq_no < found->0
                + ARCHIVE_PACKAGE_SIZE,
    {
        match self.latest_at_most(mc_seq_no) {
            Some(id) => if mc_seq_no - id < ARCHIVE_PACKAGE_SIZE {
                Some(id)
            } else {
                None
            },
            None => None,
        }
    }

    /// Assigns a block of `mc_seq_no` its archive and registers the archive
    /// where it is a new one.
    ///
    /// The id that is returned is never above `mc_seq_no`, and `mc_seq_no`
    /// lies within the span of an archive from it. Where it is registered
    /// after the call, a lookup of `mc_seq_no` finds it.
    pub fn compute_archive_id(&mut self, mc_seq_no: u32, is_key_block: bool) -> (id: u32)
        requires
            old(self).wf(),
        ensures
            final(self).wf(),
            id == assigned_archive(old(self)@, mc_seq_no, is_key_block),
            final(self)@ == ids_after_assignment(old(self)@, mc_seq_no, is_key_block),
            id <= mc_seq_no < id + ARCHIVE_PACKAGE_SIZE,
            final(self)@.contains(id) ==> archive_of(final(self)@, mc_seq_no) == Some(id),
    {
        if is_key_block {
            self.insert(mc_seq_no);
            proof {
                lemma_floor_unique(self@, mc_seq_no, mc_seq_no);
            }
            return mc_seq_no;
        }
        let mut archive_id: u32 = mc_seq_no - mc_seq_no % ARCHIVE_SLICE_SIZE;
        assert(archive_id == aligned(mc_seq_no)) by {
            assert(mc_seq_no as int == ARCHIVE_SLICE_SIZE * (mc_seq_no as int / 20000) + (
            mc_seq_no as int % 20000)) by (nonlinear_arith);
        }
        let prev_id = self.latest_at_most(mc_seq_no);
        if let Some(prev_id) = prev_id {
            if archive_id < prev_id {
                archive_id = prev_id;
            }
        }
        assert(archive_id == current_archive(self@, mc_seq_no));
        if mc_seq_no - archive_id >= ARCHIVE_PACKAGE_SIZE {
            self.insert(mc_seq_no);
            proof {
                lemma_floor_unique(self@, mc_seq_no, mc_seq_no);
            }
            archive_id = mc_seq_no;
        } else {
            proof {
                if self@.contains(archive_id) {
                    assert(is_floor(self@, mc_seq_no, archive_id)) by {
                        assert forall|other: u32|
                            self@.contains(other) && other <= mc_seq_no implies other
                            <= archive_id by {
                            lemma_floor_exists(self@, mc_seq_no, other);
                        }
                    }
                    lemma_floor_unique(self@, mc_seq_no, archive_id);
                }
            }
        }
        archive_id
    }

    /// Takes out of the index every id below the greatest id that is below
    /// `until_id`, and returns them in ascending order. That greatest id
    /// stays: its archive may hold blocks from `until_id` on.
    pub fn remove_outdated_archives(&mut self, until_id: u32) -> (removed: Vec<u32>)
        requires
            old(self).wf(),
        ensures
            final(self).wf(),
            ascending(removed@),
            forall|id: u32|
                removed@.contains(id) <==> old(self)@.contains(id) && exists|m: u32|
                    is_below(old(self)@, until_id, m) && id < m,
            forall|id: u32|
                #[trigger] final(self)@.contains(id) <==> old(self)@.contains(id)
                    && !removed@.contains(id),
    {
        let n = if until_id == 0 {
            0
        } else {
            self.count_at_most(until_id - 1)
        };
        if n == 0 {
            let removed: Vec<u32> = Vec::new();
            assert forall|id: u32| !removed@.contains(id) by {}
            assert forall|id: u32|
                !(old(self)@.contains(id) && exists|m: u32|
                    is_below(old(self)@, until_id, m) && id < m) by {
                if exists|m: u32| is_below(old(self)@, until_id, m) {
                    let m = choose|m: u32| is_below(old(self)@, until_id, m);
                    let i = choose|i: int| 0 <= i < self.ids@.len() && self.ids@[i] == m;
                }
            }
            return removed;
        }
        let ghost before = self.ids@;
        let ghost g = before[n - 1];
        let kept = self.ids.split_off(n - 1);
        let mut removed: Vec<u32> = Vec::new();
        std::mem::swap(&mut self.ids, &mut removed);
        self.ids = kept;
        proof {
            assert(removed@ =~= before.subrange(0, n - 1));
            assert(self.ids@ =~= before.subrange(n - 1, before.len() as int));
            assert(is_below(old(self)@, until_id, g)) by {
                assert(old(self)@.contains(g));
                assert forall|id: u32| old(self)@.contains(id) && id < until_id implies id
                    <= g by {
                    let i = choose|i: int| 0 <= i < before.len() && before[i] == id;
                    if i < n - 1 {
                        assert(before[i] < before[n - 1]);
                    }
                }
            }
            assert forall|id: u32|
                removed@.contains(id) <==> old(self)@.contains(id) && exists|m: u32|
                    is_below(old(self)@, until_id, m) && id < m by {
                if removed@.contains(id) {
                    let i = choose|i: int| 0 <= i < removed@.len() && removed@[i] == id;
                    assert(before[i] == id);
                    assert(before[i] < before[n - 1]);
                    assert(is_below(old(self)@, until_id, g) && id < g);
                }
                if old(self)@.contains(id) && exists|m: u32|
                    is_below(old(self)@, until_id, m) && id < m {
                    let m = choose|m: u32| is_below(old(self)@, until_id, m) && id < m;
                    assert(m == g);
                    let i = choose|i: int| 0 <= i < before.len() && before[i] == id;
                    if i >= n - 1 {
                        if i > n - 1 {
                            assert(before[n - 1] < before[i]);
                        }
                    }
                    assert(removed@[i] == id);
                }
            }
            assert forall|id: u32|
                self@.contains(id) <==> old(self)@.contains(id) && !removed@.contains(id) by {
                if self@.contains(id) {
                    let i = choose|i: int| 0 <= i < self.ids@.len() && self.ids@[i] == id;
                    assert(before[i + n - 1] == id);
                    if removed@.contains(id) {
                        let j = choose|j: int| 0 <= j < removed@.len() && removed@[j] == id;
                        assert(before[j] < before[i + n - 1]);
                    }
                }
                if old(self)@.contains(id) && !removed@.contains(id) {
                    let i = choose|i: int| 0 <= i < before.len() && before[i] == id;
                    if i < n - 1 {
                        assert(removed@[i] == id);
                    }
                    assert(self.ids@[i - (n - 1)] == id);
                }
            }
        }
        removed
    }
}

/// A set with an id that is not above `x` has a floor of `x`, and the
/// floor is not below that id.
pub proof fn lemma_floor_exists(ids: Set<u32>, x: u32, id: u32)
    requires
        ids.contains(id),
        id <= x,
    ensures
        floor_of(ids, x) is Some,
        is_floor(ids, x, floor_of(ids, x)->0),
        id <= floor_of(ids, x)->0,
    decreases x - id,
{
    if forall|other: u32| ids.contains(other) && other <= x ==> other <= id {
        assert(is_floor(ids, x, id));
        let c = choose|m: u32| is_floor(ids, x, m);
        assert(is_floor(ids, x, c));
    } else {
        let other = choose|other: u32| ids.contains(other) && other <= x && other > id;
        lemma_floor_exists(ids, x, other);
    }
}

/// The floor of `x` is the only id with the properties of a floor.
pub proof fn lemma_floor_unique(ids: Set<u32>, x: u32, m: u32)
    requires
        is_floor(ids, x, m),
    ensures
        floor_of(ids, x) == Some(m),
{
    let c = choose|c: u32| is_floor(ids, x, c);
    assert(is_floor(ids, x, c));
}

/// A lookup that finds an archive goes on finding one while ids are only
/// added: the archive that it finds then is never an older one, and still
/// spans the sequence number.
pub proof fn lemma_lookup_stable(ids: Set<u32>, more: Set<u32>, mc_seq_no: u32)
    requires
        ids.subset_of(more),
        archive_of(ids, mc_seq_no) is Some,
    ensures
        archive_of(more, mc_seq_no) is Some,
        archive_of(ids, mc_seq_no)->0 <= archive_of(more, mc_seq_no)->0 <= mc_seq_no,
        mc_seq_no < archive_of(more, mc_seq_no)->0 + ARCHIVE_PACKAGE_SIZE,
{
    let id = floor_of(ids, mc_seq_no)->0;
    assert(is_floor(ids, mc_seq_no, id));
    assert(more.contains(id));
    lemma_floor_exists(more, mc_seq_no, id);
}

/// The archive that a block is assigned spans the block, and a lookup of
/// the block finds it where it is registered: so it does for every block
/// that opens an archive, and for every block that joins a registered one.
pub proof fn lemma_assigned_covers(ids: Set<u32>, mc_seq_no: u32, is_key_block: bool)
    ensures
        ({
            let id = assigned_archive(ids, mc_seq_no, is_key_block);
            let after = ids_after_assignment(ids, mc_seq_no, is_key_block);
            &&& id <= mc_seq_no < id + ARCHIVE_PACKAGE_SIZE
            &&& ids.subset_of(after)
            &&& after.contains(id) ==> archive_of(after, mc_seq_no) == Some(id)
            &&& id == mc_seq_no ==> after.contains(id) || id == aligned(mc_seq_no)
        }),
{
    let id = assigned_archive(ids, mc_seq_no, is_key_block);
    let after = ids_after_assignment(ids, mc_seq_no, is_key_block);
    let current = current_archive(ids, mc_seq_no);
    assert(aligned(mc_seq_no) <= mc_seq_no) by {
        assert(mc_seq_no as int == ARCHIVE_SLICE_SIZE * (mc_seq_no as int / 20000) + (
        mc_seq_no as int % 20000)) by (nonlinear_arith);
    }
    if floor_of(ids, mc_seq_no) is Some {
        assert(is_floor(ids, mc_seq_no, floor_of(ids, mc_seq_no)->0));
    }
    if after.contains(id) {
        if id == mc_seq_no {
            assert(is_floor(after, mc_seq_no, id));
            lemma_floor_unique(after, mc_seq_no, id);
        } else {
            assert(after == ids);
            assert(ids.contains(id));
            lemma_floor_exists(ids, mc_seq_no, id);
            assert(is_floor(ids, mc_seq_no, id));
            lemma_floor_unique(ids, mc_seq_no, id);
        }
    }
}

} // verus!
