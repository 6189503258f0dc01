//! Allocation of numeric user and group ids.
use crate::text::{chars_of, decimal, decimal_of, push_all, string_of};
use std::collections::HashSet;
use vstd::prelude::*;

verus! {

broadcast use vstd::std_specs::hash::group_hash_axioms;

/// First id of the system range.
pub const SYSTEM_ID_START: u32 = 1;

/// Last id of the system range.
pub const SYSTEM_ID_END: u32 = 999;

/// First id of the user range.
pub const USER_ID_START: u32 = 1000;

/// Last id of the user range.
pub const MAX_ID: u32 = 65534;

/// Which range an id is allocated from.
#[derive(Clone, Copy, Debug, PartialEq, Eq, Structural)]
pub enum IdKind {
    System,
    User,
}

impl IdKind {
    /// First id of the range of this kind.
    pub open spec fn first(self) -> u32 {
        match self {
            IdKind::System => SYSTEM_ID_START,
            IdKind::User => USER_ID_START,
        }
    }

    /// Last id of the range of this kind.
    pub open spec fn last(self) -> u32 {
        match self {
            IdKind::System => SYSTEM_ID_END,
            IdKind::User => MAX_ID,
        }
    }
}

/// The smallest id in `lo..=hi` that `used` does not hold.
pub open spec fn first_free(used: Set<u32>, lo: int, hi: int) -> Option<u32>
    decreases hi + 1 - lo,
{
    if lo > hi || lo < 0 || hi > u32::MAX {
        None
    } else if !used.contains(lo as u32) {
        Some(lo as u32)
    } else {
        first_free(used, lo + 1, hi)
    }
}

/// The id `allocate` hands out of `kind`'s range, given the ids in use.
pub open spec fn next_free(used: Set<u32>, kind: IdKind) -> Option<u32> {
    first_free(used, kind.first() as int, kind.last() as int)
}

/// `first_free` gives the lowest unused id of the range, or `None` when all are used.
pub proof fn lemma_first_free(used: Set<u32>, lo: int, hi: int)
    requires
        0 <= lo,
        hi <= u32::MAX,
    ensures
        first_free(used, lo, hi) matches Some(id) ==> {
            &&& lo <= id <= hi
            &&& !used.contains(id)
            &&& forall|j: int| lo <= j < id ==> used.contains(#[trigger] (j as u32))
        },
        first_free(used, lo, hi) is None ==> forall|j: int|
            lo <= j <= hi ==> used.contains(#[trigger] (j as u32)),
    decreases hi + 1 - lo,
{
    if lo <= hi && used.contains(lo as u32) {
        lemma_first_free(used, lo + 1, hi);
    }
}

/// Why an id could not be handed out.
#[derive(Clone, Copy, Debug, PartialEq, Eq, Structural)]
pub enum IdError {
    /// Every id of the requested range is in use.
    Exhausted,
    /// The id asked for is already in use.
    InUse(u32),
}

impl IdError {
    /// The text of the error.
    pub open spec fn message_spec(self) -> Seq<char> {
        match self {
            IdError::Exhausted => "no available IDs in range"@,
            IdError::InUse(id) => "id "@ + decimal(id as nat) + " is already in use"@,
        }
    }

    /// The text of the error.
    pub fn message(&self) -> (s: String)
        ensures
            s@ == self.message_spec(),
    {
        match self {
            IdError::Exhausted => String::from_str("no available IDs in range"),
            IdError::InUse(id) => {
                let mut out = chars_of("id ");
                push_all(&mut out, decimal_of(*id as u64).as_slice());
                push_all(&mut out, chars_of(" is already in use").as_slice());
                string_of(out.as_slice())
            },
        }
    }
}

/// The set of ids in use, from which new ids are allocated.
pub struct IdAllocator {
    used_ids: HashSet<u32>,
}

impl View for IdAllocator {
    type V = Set<u32>;

    closed spec fn view(&self) -> Set<u32> {
        self.used_ids@
    }
}

impl IdAllocator {
    /// An allocator with no id in use.
    pub fn new() -> (a: Self)
        ensures
            a@ == Set::<u32>::empty(),
    {
        IdAllocator { used_ids: HashSet::new() }
    }

    /// An allocator whose ids in use are exactly `ids`.
    pub fn with_existing(ids: Vec<u32>) -> (a: Self)
        ensures
            a@ == ids@.to_set(),
    {
        let mut used_ids: HashSet<u32> = HashSet::new();
        let mut i: usize = 0;
        while i < ids.len()
            invariant
                i <= ids@.len(),
                used_ids@ == ids@.take(i as int).to_set(),
            decreases ids@.len() - i,
        {
            used_ids.insert(ids[i]);
            proof {
                let prev = ids@.take(i as int);
                assert(ids@.take(i + 1) =~= prev.push(ids@[i as int]));
                assert(prev.push(ids@[i as int]).to_set() =~= prev.to_set().insert(ids@[i as int])) by {
                    broadcast use vstd::seq_lib::group_seq_properties;
                }
            }
            i = i + 1;
        }
        assert(ids@.take(ids@.len() as int) =~= ids@);
        IdAllocator { used_ids }
    }

    /// Hands out the smallest id of `kind`'s range that is not in use, and
    /// marks it used; fails when every id of the range is in use.
    pub fn allocate(&mut self, kind: IdKind) -> (r: Result<u32, IdError>)
        ensures
            match next_free(old(self)@, kind) {
                Some(id) => r == Ok::<u32, IdError>(id) && final(self)@ == old(self)@.insert(id),
                None => r == Err::<u32, IdError>(IdError::Exhausted) && final(self)@ == old(self)@,
            },
    {
        let (first, last): (u32, u32) = match kind {
            IdKind::System => (SYSTEM_ID_START, SYSTEM_ID_END),
            IdKind::User => (USER_ID_START, MAX_ID),
        };
        let mut id: u32 = first;
        while id <= last
            invariant
                first <= id <= last + 1,
                last < u32::MAX,
                first == kind.first(),
                last == kind.last(),
                self@ == old(self)@,
                first_free(self@, id as int, last as int) == next_free(self@, kind),
            decreases last + 1 - id,
        {
            if !self.used_ids.contains(&id) {
                self.used_ids.insert(id);
                return Ok(id);
            }
            id = id + 1;
        }
        Err(IdError::Exhausted)
    }

    /// Marks `id` used; fails, changing nothing, when it already is.
    pub fn reserve(&mut self, id: u32) -> (r: Result<(), IdError>)
        ensures
            old(self)@.contains(id) ==> r == Err::<(), IdError>(IdError::InUse(id))
                && final(self)@ == old(self)@,
            !old(self)@.contains(id) ==> r == Ok::<(), IdError>(())
                && final(self)@ == old(self)@.insert(id),
    {
        if self.used_ids.contains(&id) {
            return Err(IdError::InUse(id));
        }
        self.used_ids.insert(id);
        Ok(())
    }

    /// Marks `id` free.
    pub fn release(&mut self, id: u32)
        ensures
            final(self)@ == old(self)@.remove(id),
    {
        self.used_ids.remove(&id);
    }

    /// Whether `id` is in use.
    pub fn is_used(&self, id: u32) -> (b: bool)
        ensures
            b == self@.contains(id),
    {
        self.used_ids.contains(&id)
    }
}

/// An allocated id lies in its kind's range, was not in use, and every
/// smaller id of the range was.
pub proof fn law_allocated_id_is_fresh(used: Set<u32>, kind: IdKind)
    ensures
        next_free(used, kind) matches Some(id) ==> {
            &&& kind.first() <= id <= kind.last()
            &&& !used.contains(id)
            &&& forall|j: int| kind.first() <= j < id ==> used.contains(#[trigger] (j as u32))
        },
{
    lemma_first_free(used, kind.first() as int, kind.last() as int);
}

/// Allocation fails only when every id of the kind's range is in use.
pub proof fn law_exhausted_range_is_full(used: Set<u32>, kind: IdKind)
    ensures
        next_free(used, kind) is None ==> forall|j: int|
            kind.first() <= j <= kind.last() ==> used.contains(#[trigger] (j as u32)),
{
    lemma_first_free(used, kind.first() as int, kind.last() as int);
}

/// Once an id is reserved or allocated it is in use, so reserving it again fails.
pub proof fn law_taken_id_is_used(used: Set<u32>, id: u32)
    ensures
        used.insert(id).contains(id),
{
}

/// A released id is free again.
pub proof fn law_released_id_is_free(used: Set<u32>, id: u32)
    ensures
        !used.remove(id).contains(id),
{
}

} // verus!
