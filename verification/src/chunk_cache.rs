//! The chunks held in memory: a cache that drops the least recently used one.

use crate::sample::Sample;
use std::collections::HashMap;
use vstd::prelude::*;
use vstd::std_specs::hash::group_hash_axioms;

verus! {

// ---------------------------------------------------------------------------
// Chunks in memory
// ---------------------------------------------------------------------------

/// How many chunks a store keeps in memory.
pub const MAX_CACHED: usize = 64;

/// A chunk held in memory: column 0 holds the instants, the others the data
/// channels.
#[derive(Debug)]
pub struct CachedChunk {
    pub columns: Vec<Vec<Sample>>,
    pub t_min: Sample,
    pub t_max: Sample,
}

/// What a chunk in memory holds.
#[verifier::ext_equal]
pub struct ChunkView {
    pub columns: Seq<Seq<Sample>>,
    pub t_min: Sample,
    pub t_max: Sample,
}

/// The contents of a sequence of columns.
pub open spec fn column_views(columns: Seq<Vec<Sample>>) -> Seq<Seq<Sample>> {
    Seq::new(columns.len(), |i: int| columns[i]@)
}

impl View for CachedChunk {
    type V = ChunkView;

    open spec fn view(&self) -> ChunkView {
        ChunkView { columns: column_views(self.columns@), t_min: self.t_min, t_max: self.t_max }
    }
}

// ---------------------------------------------------------------------------
// The order of use
// ---------------------------------------------------------------------------

/// The chunks of an order of use other than one of them.
pub open spec fn without(order: Seq<u32>, k: u32) -> Seq<u32>
    decreases order.len(),
{
    if order.len() == 0 {
        Seq::empty()
    } else if order.last() == k {
        without(order.drop_last(), k)
    } else {
        without(order.drop_last(), k).push(order.last())
    }
}

proof fn lemma_without(order: Seq<u32>, k: u32)
    ensures
        forall|x: u32| #[trigger] without(order, k).contains(x) <==> order.contains(x) && x != k,
        order.no_duplicates() ==> without(order, k).no_duplicates(),
        without(order, k).len() <= order.len(),
        order.contains(k) ==> without(order, k).len() < order.len(),
        !order.contains(k) ==> without(order, k) == order,
    decreases order.len(),
{
    if order.len() > 0 {
        let head = order.drop_last();
        let rest = without(head, k);
        let w = without(order, k);
        lemma_without(head, k);
        let n = order.len() - 1;
        assert(order[n] == order.last());
        assert(forall|i: int| 0 <= i < head.len() ==> head[i] == order[i]);
        assert forall|x: u32| #[trigger] w.contains(x) <==> order.contains(x) && x != k by {
            if order.contains(x) && x != k && x != order.last() {
                let i = choose|i: int| 0 <= i < order.len() && order[i] == x;
                assert(head[i] == x);
                assert(head.contains(x));
                assert(rest.contains(x));
                let j = choose|j: int| 0 <= j < rest.len() && rest[j] == x;
                assert(w[j] == x);
            }
            if order.contains(x) && x != k && x == order.last() {
                assert(w[w.len() - 1] == x);
            }
            if w.contains(x) {
                let i = choose|i: int| 0 <= i < w.len() && w[i] == x;
                if order.last() != k && i == w.len() - 1 {
                    assert(order[n] == x);
                } else {
                    assert(rest[i] == x);
                    assert(rest.contains(x));
                    assert(head.contains(x));
                    let j = choose|j: int| 0 <= j < head.len() && head[j] == x;
                    assert(order[j] == x);
                }
            }
        }
        if order.no_duplicates() {
            assert(head.no_duplicates());
            if order.last() != k {
                if rest.contains(order.last()) {
                    let j = choose|j: int| 0 <= j < head.len() && head[j] == order.last();
                    assert(order[j] == order[n]);
                }
                assert(w.no_duplicates()) by {
                    assert forall|i: int, j: int| 0 <= i < w.len() && 0 <= j < w.len() && i
                        != j implies w[i] != w[j] by {
                        if i < rest.len() && j < rest.len() {
                            assert(rest[i] != rest[j]);
                        } else if i < rest.len() {
                            assert(rest.contains(rest[i]));
                        } else {
                            assert(rest.contains(rest[j]));
                        }
                    }
                }
            }
        }
        if order.contains(k) && order.last() != k {
            let i = choose|i: int| 0 <= i < order.len() && order[i] == k;
            assert(head[i] == k);
        }
        if !order.contains(k) {
            if head.contains(k) {
                let i = choose|i: int| 0 <= i < head.len() && head[i] == k;
                assert(order[i] == k);
            }
            assert(w =~= order);
        }
    }
}

fn drop_key(order: &Vec<u32>, k: u32) -> (out: Vec<u32>)
    ensures
        out@ == without(order@, k),
{
    let mut out: Vec<u32> = Vec::new();
    let mut i: usize = 0;
    while i < order.len()
        invariant
            i <= order@.len(),
            out@ == without(order@.take(i as int), k),
        decreases order@.len() - i,
    {
        assert(order@.take(i + 1).drop_last() =~= order@.take(i as int));
        if order[i] != k {
            out.push(order[i]);
        }
        i += 1;
    }
    assert(order@.take(i as int) =~= order@);
    out
}

proof fn lemma_pushed(order: Seq<u32>, k: u32)
    ensures
        forall|x: u32| order.push(k).contains(x) <==> order.contains(x) || x == k,
        order.no_duplicates() && !order.contains(k) ==> order.push(k).no_duplicates(),
{
    let p = order.push(k);
    assert(p[order.len() as int] == k);
    assert forall|x: u32| p.contains(x) <==> order.contains(x) || x == k by {
        if order.contains(x) {
            let i = choose|i: int| 0 <= i < order.len() && order[i] == x;
            assert(p[i] == x);
        }
        if p.contains(x) && x != k {
            let i = choose|i: int| 0 <= i < p.len() && p[i] == x;
            assert(order[i] == x);
        }
    }
}

// ---------------------------------------------------------------------------
// The cache
// ---------------------------------------------------------------------------

/// The chunks held in memory.
pub struct ChunkCache {
    chunks: HashMap<u32, CachedChunk>,
    access_order: Vec<u32>,
    max_cached: usize,
}

impl ChunkCache {
    /// The chunks held.
    pub closed spec fn held(&self) -> Map<u32, ChunkView> {
        self.chunks@.map_values(|c: CachedChunk| c@)
    }

    /// The chunks held, the least recently used one first.
    pub closed spec fn recent(&self) -> Seq<u32> {
        self.access_order@
    }

    /// How many chunks are held at most.
    pub closed spec fn capacity(&self) -> int {
        self.max_cached as int
    }

    /// What holds between the operations: the order of use lists the chunks
    /// held, each once, and there are no more of them than may be held.
    pub closed spec fn wf(&self) -> bool {
        &&& self.max_cached > 0
        &&& self.access_order@.len() <= self.max_cached
        &&& self.access_order@.no_duplicates()
        &&& forall|k: u32| #[trigger] self.chunks@.contains_key(k) <==> self.access_order@.contains(k)
    }

    /// A well-formed cache holds the chunks that its order of use lists, and no
    /// more than it may.
    pub proof fn law_bounded(&self)
        requires
            self.wf(),
        ensures
            self.recent().no_duplicates(),
            self.recent().len() <= self.capacity(),
            self.held().dom() == self.recent().to_set(),
            self.held().dom().finite(),
            self.held().dom().len() <= self.capacity(),
    {
        let order = self.access_order@;
        assert forall|k: u32| self.held().contains_key(k) <==> order.to_set().contains(k) by {
            assert(self.held().contains_key(k) <==> self.chunks@.contains_key(k));
        }
        assert(self.held().dom() =~= order.to_set());
        order.unique_seq_to_set();
        order.lemma_cardinality_of_set();
    }

    /// A cache that holds nothing yet.
    pub fn new() -> (cache: ChunkCache)
        ensures
            cache.wf(),
            cache.capacity() == MAX_CACHED,
            cache.capacity() == 64,
            cache.recent() == Seq::<u32>::empty(),
            cache.held() == Map::<u32, ChunkView>::empty(),
    {
        broadcast use group_hash_axioms;

        let cache: ChunkCache = ChunkCache {
            chunks: HashMap::new(),
            access_order: Vec::new(),
            max_cached: MAX_CACHED,
        };
        assert(cache.held() =~= Map::<u32, ChunkView>::empty());
        cache
    }

    /// Whether a chunk is held.
    pub fn contains(&self, k: u32) -> (b: bool)
        ensures
            b == self.held().contains_key(k),
    {
        broadcast use group_hash_axioms;

        self.chunks.contains_key(&k)
    }

    /// A chunk that is held.
    pub fn get(&self, k: u32) -> (chunk: Option<&CachedChunk>)
        ensures
            match chunk {
                Some(c) => self.held().contains_key(k) && self.held()[k] == c@,
                None => !self.held().contains_key(k),
            },
    {
        broadcast use group_hash_axioms;

        self.chunks.get(&k)
    }

    /// Marks a chunk that is held as the one used last.
    pub fn touch(&mut self, k: u32)
        requires
            old(self).wf(),
            old(self).held().contains_key(k),
        ensures
            final(self).wf(),
            final(self).capacity() == old(self).capacity(),
            final(self).held() == old(self).held(),
            final(self).recent() == without(old(self).recent(), k).push(k),
    {
        let ghost start = *self;
        let order: Vec<u32> = drop_key(&self.access_order, k);
        proof {
            lemma_without(self.access_order@, k);
            assert(self.chunks@.contains_key(k));
        }
        let ghost rest = order@;
        self.access_order = order;
        self.access_order.push(k);
        proof {
            lemma_pushed(rest, k);
            assert forall|x: u32| #[trigger]
                self.chunks@.contains_key(x) <==> self.access_order@.contains(x) by {
                assert(rest.contains(x) <==> start.access_order@.contains(x) && x != k);
                assert(start.chunks@.contains_key(x) <==> start.access_order@.contains(x));
            }
        }
    }

    /// Drops the least recently used chunk where the cache is full.
    pub fn make_room(&mut self)
        requires
            old(self).wf(),
        ensures
            final(self).wf(),
            final(self).capacity() == old(self).capacity(),
            final(self).recent().len() < final(self).capacity(),
            old(self).recent().len() < old(self).capacity() ==> final(self).recent() == old(
                self,
            ).recent() && final(self).held() == old(self).held(),
            old(self).recent().len() >= old(self).capacity() ==> final(self).recent() == old(
                self,
            ).recent().skip(1) && final(self).held() == old(self).held().remove(
                old(self).recent()[0],
            ),
    {
        broadcast use group_hash_axioms;

        if self.access_order.len() >= self.max_cached {
            let ghost order = self.access_order@;
            let ghost before = *self;
            let k: u32 = self.access_order.remove(0);
            self.chunks.remove(&k);
            proof {
                assert(self.access_order@ =~= order.skip(1));
                assert forall|x: u32| #[trigger]
                    self.chunks@.contains_key(x) <==> self.access_order@.contains(x) by {
                    if self.chunks@.contains_key(x) {
                        assert(before.chunks@.contains_key(x));
                        let i = choose|i: int| 0 <= i < order.len() && order[i] == x;
                        assert(i > 0);
                        assert(self.access_order@[i - 1] == x);
                    }
                    if self.access_order@.contains(x) {
                        let i = choose|i: int|
                            0 <= i < self.access_order@.len() && self.access_order@[i] == x;
                        assert(order[i + 1] == x);
                        assert(order[0] != order[i + 1]);
                        assert(before.chunks@.contains_key(x));
                    }
                }
                assert(self.held() =~= before.held().remove(k));
            }
        }
    }

    /// Adds a chunk that is not held yet, as the one used last.
    pub fn insert(&mut self, k: u32, chunk: CachedChunk)
        requires
            old(self).wf(),
            old(self).recent().len() < old(self).capacity(),
            !old(self).held().contains_key(k),
        ensures
            final(self).wf(),
            final(self).capacity() == old(self).capacity(),
            final(self).held() == old(self).held().insert(k, chunk@),
            final(self).recent() == old(self).recent().push(k),
    {
        broadcast use group_hash_axioms;

        let ghost before = *self;
        self.access_order.push(k);
        self.chunks.insert(k, chunk);
        proof {
            assert(!before.chunks@.contains_key(k));
            lemma_pushed(before.access_order@, k);
            assert forall|x: u32| #[trigger]
                self.chunks@.contains_key(x) <==> self.access_order@.contains(x) by {
                assert(before.chunks@.contains_key(x) <==> before.access_order@.contains(x));
            }
            assert(self.held() =~= before.held().insert(k, chunk@));
        }
    }
}

/// Taking a chunk out of the order of use leaves the others in their order.
pub proof fn law_without(order: Seq<u32>, k: u32)
    ensures
        without(order, k) == order.filter(|x: u32| x != k),
    decreases order.len(),
{
    reveal(Seq::filter);
    if order.len() > 0 {
        law_without(order.drop_last(), k);
    }
}

/// What a chunk holds is all of its columns and its range of instants.
pub proof fn law_chunk_view(c: CachedChunk, i: int)
    ensures
        c@.columns.len() == c.columns@.len(),
        0 <= i < c.columns@.len() ==> c@.columns[i] == c.columns@[i]@,
        c@.t_min == c.t_min && c@.t_max == c.t_max,
{
}

} // verus!
