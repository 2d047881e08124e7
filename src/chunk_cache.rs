//! A small least-recently-used cache of decoded bundle contents, and the
//! slicing of one chunk out of a bundle's contents.
use vstd::prelude::*;

verus! {

/// Offset of chunk `i` in the contents: the sum of the sizes before it.
pub open spec fn chunk_start(sizes: Seq<usize>, i: int) -> int
    decreases i,
{
    if i <= 0 {
        0
    } else {
        chunk_start(sizes, i - 1) + sizes[i - 1]
    }
}

/// Chunk `i` of contents laid out by `sizes`, or `None` when there is no
/// such chunk or the contents are too short for it.
pub open spec fn chunk_of(sizes: Seq<usize>, data: Seq<u8>, i: int) -> Option<Seq<u8>> {
    if 0 <= i < sizes.len() && chunk_start(sizes, i) + sizes[i] <= data.len() {
        Some(data.subrange(chunk_start(sizes, i), chunk_start(sizes, i) + sizes[i]))
    } else {
        None
    }
}

proof fn lemma_chunk_start_monotone(sizes: Seq<usize>, i: int, j: int)
    requires
        0 <= j <= i,
    ensures
        chunk_start(sizes, j) <= chunk_start(sizes, i),
    decreases i - j,
{
    if j < i {
        lemma_chunk_start_monotone(sizes, i - 1, j);
    }
}

/// Copies chunk `index` out of `data`, whose chunks have the given sizes.
pub fn extract_chunk(sizes: &Vec<usize>, data: &Vec<u8>, index: usize) -> (r: Option<Vec<u8>>)
    ensures
        r is Some <==> chunk_of(sizes@, data@, index as int) is Some,
        r is Some ==> r->Some_0@ == chunk_of(sizes@, data@, index as int)->Some_0,
{
    if index >= sizes.len() {
        return None;
    }
    let mut pos: usize = 0;
    let mut i: usize = 0;
    while i < index
        invariant
            index < sizes@.len(),
            0 <= i <= index,
            pos as int == chunk_start(sizes@, i as int),
            pos <= data@.len(),
        decreases index - i,
    {
        if sizes[i] > data.len() - pos {
            proof {
                lemma_chunk_start_monotone(sizes@, index as int, i as int + 1);
            }
            return None;
        }
        pos = pos + sizes[i];
        i = i + 1;
    }
    let len = sizes[index];
    if len > data.len() - pos {
        return None;
    }
    let mut chunk: Vec<u8> = Vec::with_capacity(len);
    let mut k: usize = 0;
    let dl = data.len();
    while k < len
        invariant
            dl == data@.len(),
            pos + len <= data@.len(),
            0 <= k <= len,
            chunk@ == data@.subrange(pos as int, pos + k),
        decreases len - k,
    {
        chunk.push(data[pos + k]);
        k = k + 1;
        assert(chunk@ =~= data@.subrange(pos as int, pos + k));
    }
    Some(chunk)
}

/// The decoded contents of one bundle, with the sizes of its chunks.
pub struct CachedBundle {
    pub id: u128,
    pub chunk_sizes: Vec<usize>,
    pub data: Vec<u8>,
}

impl View for CachedBundle {
    type V = (u128, Seq<usize>, Seq<u8>);

    open spec fn view(&self) -> (u128, Seq<usize>, Seq<u8>) {
        (self.id, self.chunk_sizes@, self.data@)
    }
}

/// Entries from the least to the most recently used, never more than `capacity`.
pub struct ChunkCache {
    entries: Vec<CachedBundle>,
    capacity: usize,
}

/// The entries' views, from the least to the most recently used.
pub open spec fn entry_views(s: Seq<CachedBundle>) -> Seq<(u128, Seq<usize>, Seq<u8>)> {
    s.map_values(|e: CachedBundle| e@)
}

/// Whether an entry of `s` belongs to bundle `id`.
pub open spec fn holds_id(s: Seq<(u128, Seq<usize>, Seq<u8>)>, id: u128) -> bool {
    exists|i: int| 0 <= i < s.len() && s[i].0 == id
}

/// No two entries of `s` belong to the same bundle.
pub open spec fn unique_entries(s: Seq<(u128, Seq<usize>, Seq<u8>)>) -> bool {
    forall|i: int, j: int| 0 <= i < s.len() && 0 <= j < s.len() && #[trigger] s[i].0 == #[trigger] s[j].0 ==> i == j
}

/// The entry of bundle `id` in `s`.
pub open spec fn entry_of(s: Seq<(u128, Seq<usize>, Seq<u8>)>, id: u128) -> (u128, Seq<usize>, Seq<u8>) {
    s[choose|i: int| 0 <= i < s.len() && s[i].0 == id]
}

proof fn lemma_entry_of(s: Seq<(u128, Seq<usize>, Seq<u8>)>, i: int)
    requires
        unique_entries(s),
        0 <= i < s.len(),
    ensures
        entry_of(s, s[i].0) == s[i],
{
    let k = choose|k: int| 0 <= k < s.len() && s[k].0 == s[i].0;
    assert(s[k].0 == s[i].0);
}

proof fn lemma_unique_remove(s: Seq<(u128, Seq<usize>, Seq<u8>)>, i: int)
    requires
        unique_entries(s),
        0 <= i < s.len(),
    ensures
        unique_entries(s.remove(i)),
        !holds_id(s.remove(i), s[i].0),
{
    let t = s.remove(i);
    assert forall|a: int, b: int| 0 <= a < t.len() && 0 <= b < t.len() && #[trigger] t[a].0 == #[trigger] t[b].0 implies a == b by {
        let a2 = if a < i { a } else { a + 1 };
        let b2 = if b < i { b } else { b + 1 };
        assert(t[a] == s[a2] && t[b] == s[b2]);
    }
    if holds_id(t, s[i].0) {
        let k = choose|k: int| 0 <= k < t.len() && t[k].0 == s[i].0;
        let k2 = if k < i { k } else { k + 1 };
        assert(t[k] == s[k2]);
    }
}

proof fn lemma_unique_push(s: Seq<(u128, Seq<usize>, Seq<u8>)>, e: (u128, Seq<usize>, Seq<u8>))
    requires
        unique_entries(s),
        !holds_id(s, e.0),
    ensures
        unique_entries(s.push(e)),
{
    let t = s.push(e);
    assert forall|a: int, b: int| 0 <= a < t.len() && 0 <= b < t.len() && #[trigger] t[a].0 == #[trigger] t[b].0 implies a == b by {
        if a < s.len() && b < s.len() {
            assert(t[a] == s[a] && t[b] == s[b]);
        } else if a < s.len() {
            assert(t[a] == s[a]);
        } else if b < s.len() {
            assert(t[b] == s[b]);
        }
    }
}

/// The entries of `s` that do not belong to bundle `id`, in order.
pub open spec fn without_id(s: Seq<(u128, Seq<usize>, Seq<u8>)>, id: u128) -> Seq<(u128, Seq<usize>, Seq<u8>)> {
    s.filter(|e: (u128, Seq<usize>, Seq<u8>)| e.0 != id)
}

/// The entries after inserting `e` as the most recent one and dropping the
/// least recent ones beyond `cap`.
pub open spec fn after_put(
    s: Seq<(u128, Seq<usize>, Seq<u8>)>,
    e: (u128, Seq<usize>, Seq<u8>),
    cap: nat,
) -> Seq<(u128, Seq<usize>, Seq<u8>)> {
    let t = without_id(s, e.0).push(e);
    if t.len() > cap {
        t.subrange(t.len() - cap, t.len() as int)
    } else {
        t
    }
}

impl View for ChunkCache {
    type V = Seq<(u128, Seq<usize>, Seq<u8>)>;

    closed spec fn view(&self) -> Seq<(u128, Seq<usize>, Seq<u8>)> {
        entry_views(self.entries@)
    }
}

impl ChunkCache {
    /// The largest number of bundles the cache keeps.
    pub closed spec fn spec_capacity(&self) -> nat {
        self.capacity as nat
    }

    /// The cache's own invariant: a positive capacity that is never exceeded,
    /// and at most one entry for each bundle.
    pub closed spec fn wf(&self) -> bool {
        &&& self.capacity > 0
        &&& self.entries@.len() <= self.capacity
        &&& unique_entries(self@)
    }

    /// An empty cache that keeps at most `capacity` bundles.
    pub fn new(capacity: usize) -> (r: ChunkCache)
        requires
            capacity > 0,
        ensures
            r.wf(),
            r@ == Seq::<(u128, Seq<usize>, Seq<u8>)>::empty(),
            r.spec_capacity() == capacity,
    {
        let r = ChunkCache { entries: Vec::new(), capacity };
        assert(r@ =~= Seq::<(u128, Seq<usize>, Seq<u8>)>::empty());
        r
    }

    /// Whether the cache holds the contents of bundle `id`.
    pub fn contains(&self, id: u128) -> (r: bool)
        ensures
            r == holds_id(self@, id),
    {
        self.find(id).is_some()
    }

    fn find(&self, id: u128) -> (r: Option<usize>)
        ensures
            r is None <==> !holds_id(self@, id),
            r is Some ==> r->Some_0 < self@.len() && self@[r->Some_0 as int].0 == id,
    {
        let mut i: usize = 0;
        while i < self.entries.len()
            invariant
                0 <= i <= self.entries@.len(),
                self@ == entry_views(self.entries@),
                forall|j: int| 0 <= j < i ==> self@[j].0 != id,
            decreases self.entries@.len() - i,
        {
            if self.entries[i].id == id {
                assert(self@[i as int].0 == id);
                return Some(i);
            }
            i = i + 1;
        }
        None
    }

    /// Reads chunk `index` of bundle `id` from the cache. `None`: the bundle is
    /// not cached. On a hit the entry becomes the most recently used.
    pub fn get_chunk(&mut self, id: u128, index: usize) -> (r: Option<Option<Vec<u8>>>)
        requires
            old(self).wf(),
        ensures
            final(self).wf(),
            final(self).spec_capacity() == old(self).spec_capacity(),
            r is None <==> !holds_id(old(self)@, id),
            r is None ==> final(self)@ == old(self)@,
            r is Some ==> exists|i: int|
                0 <= i < old(self)@.len() && old(self)@[i].0 == id
                && final(self)@ == old(self)@.remove(i).push(old(self)@[i]),
            r is Some ==> match chunk_of(entry_of(old(self)@, id).1, entry_of(old(self)@, id).2, index as int) {
                Some(c) => r->Some_0 is Some && r->Some_0->Some_0@ == c,
                None => r->Some_0 is None,
            },
    {
        match self.find(id) {
            None => None,
            Some(i) => {
                proof {
                    lemma_entry_of(old(self)@, i as int);
                    lemma_unique_remove(old(self)@, i as int);
                    lemma_unique_push(old(self)@.remove(i as int), old(self)@[i as int]);
                }
                let e = self.entries.remove(i);
                let chunk = extract_chunk(&e.chunk_sizes, &e.data, index);
                self.entries.push(e);
                assert(self@ =~= old(self)@.remove(i as int).push(old(self)@[i as int]));
                Some(chunk)
            },
        }
    }

    /// Drops the entries of bundle `id`.
    pub fn evict(&mut self, id: u128)
        requires
            old(self).wf(),
        ensures
            final(self).wf(),
            final(self).spec_capacity() == old(self).spec_capacity(),
            final(self)@ == without_id(old(self)@, id),
            !holds_id(final(self)@, id),
            forall|x: u128| holds_id(final(self)@, x) ==> holds_id(old(self)@, x),
    {
        let ghost old_views = self@;
        let mut i: usize = 0;
        let ghost mut j: int = 0;
        while i < self.entries.len()
            invariant
                self.capacity == old(self).capacity,
                self.entries@.len() <= old(self).entries@.len(),
                0 <= i <= self.entries@.len(),
                0 <= j <= old_views.len(),
                self@.subrange(0, i as int) == without_id(old_views.subrange(0, j), id),
                self@.subrange(i as int, self@.len() as int) == old_views.subrange(j, old_views.len() as int),
                forall|k: int| 0 <= k < i ==> self@[k].0 != id,
                forall|x: u128| holds_id(self@, x) ==> holds_id(old_views, x),
                unique_entries(self@),
            decreases self.entries@.len() - i,
        {
            let ghost before = self@;
            let ghost sb = before.subrange(i as int, before.len() as int);
            let ghost so = old_views.subrange(j, old_views.len() as int);
            proof {
                assert(before.len() == self.entries@.len());
                assert(sb.len() == old_views.len() - j);
                assert(sb[0] == so[0]);
                let s = old_views.subrange(0, j + 1);
                assert(s.drop_last() =~= old_views.subrange(0, j));
                assert(s.last() == before[i as int]);
            }
            if self.entries[i].id == id {
                proof {
                    lemma_unique_remove(before, i as int);
                }
                self.entries.remove(i);
                proof {
                    assert(self@ =~= before.remove(i as int));
                    assert(self@.len() == before.len() - 1);
                    assert(self@.len() - i == old_views.len() - (j + 1));
                    assert forall|x: u128| holds_id(self@, x) implies holds_id(old_views, x) by {
                        let k = choose|k: int| 0 <= k < self@.len() && self@[k].0 == x;
                        let k2 = if k < i { k } else { k + 1 };
                        assert(self@[k] == before[k2]);
                        assert(holds_id(before, x));
                    }
                    assert(self@.subrange(0, i as int) =~= before.subrange(0, i as int));
                    let s = old_views.subrange(0, j + 1);
                    assert(s.drop_last() =~= old_views.subrange(0, j));
                    assert(s.last() == so[0]);
                    reveal(Seq::filter);
                    assert(without_id(s, id) == without_id(old_views.subrange(0, j), id));
                    assert forall|k: int| 0 <= k < old_views.len() - j - 1 implies #[trigger] self@[k + i] == old_views[k + (j + 1)] by {
                        assert(sb[1 + k] == so[1 + k]);
                    }
                    assert(self@.subrange(i as int, self@.len() as int) =~= old_views.subrange(j + 1, old_views.len() as int));
                }
            } else {
                i = i + 1;
                proof {
                    assert(self@ == before);
                    assert(self@.len() - i == old_views.len() - (j + 1));
                    assert(self@.subrange(0, i as int) =~= before.subrange(0, i - 1).push(before[i - 1]));
                    let s = old_views.subrange(0, j + 1);
                    assert(s.drop_last() =~= old_views.subrange(0, j));
                    assert(s.last() == so[0]);
                    reveal(Seq::filter);
                    assert(without_id(s, id) == without_id(old_views.subrange(0, j), id).push(before[i - 1]));
                    assert forall|k: int| 0 <= k < old_views.len() - j - 1 implies #[trigger] self@[k + i] == old_views[k + (j + 1)] by {
                        assert(sb[1 + k] == so[1 + k]);
                    }
                    assert(self@.subrange(i as int, self@.len() as int) =~= old_views.subrange(j + 1, old_views.len() as int));
                }
            }
            proof {
                j = j + 1;
            }
        }
        proof {
            assert(self@.subrange(i as int, self@.len() as int).len() == 0);
            assert(self@.subrange(0, i as int) =~= self@);
            assert(old_views.subrange(0, j) =~= old_views);
        }
    }

    /// Stores the contents of a bundle as the most recently used entry,
    /// replacing an older entry of the same bundle and dropping the least
    /// recently used one when the cache is full.
    pub fn put(&mut self, e: CachedBundle)
        requires
            old(self).wf(),
        ensures
            final(self).wf(),
            final(self).spec_capacity() == old(self).spec_capacity(),
            final(self)@ == after_put(old(self)@, e@, old(self).spec_capacity()),
            holds_id(final(self)@, e.id),
            entry_of(final(self)@, e.id) == e@,
    {
        let ghost ev = e@;
        let id = e.id;
        self.evict(id);
        let ghost t = self@.push(ev);
        proof {
            lemma_unique_push(self@, ev);
        }
        self.entries.push(e);
        assert(self@ =~= t);
        if self.entries.len() > self.capacity {
            proof {
                lemma_unique_remove(t, 0);
            }
            self.entries.remove(0);
            assert(self@ =~= t.subrange(t.len() - self.capacity, t.len() as int));
            assert(self@ =~= t.remove(0));
        }
        assert(self@[self@.len() - 1].0 == id);
        proof {
            lemma_entry_of(self@, self@.len() - 1);
        }
    }
}

} // verus!
