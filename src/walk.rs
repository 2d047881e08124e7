//! The order in which a snapshot walk saves directories: each directory is
//! registered when the walk enters it, and is handed out for saving only once
//! every directory below it has been saved.
use vstd::prelude::*;

verus! {

/// The directories a walk has entered, each with its parent, and the stack of
/// those not saved yet.
pub struct SaveOrder {
    parents: Vec<Option<usize>>,
    saved: Vec<bool>,
    stack: Vec<usize>,
}

impl SaveOrder {
    /// The parent of each registered directory.
    pub closed spec fn parents_view(&self) -> Seq<Option<usize>> {
        self.parents@
    }

    /// Whether each registered directory has been handed out for saving.
    pub closed spec fn saved_view(&self) -> Seq<bool> {
        self.saved@
    }

    /// The structure's own invariant.
    pub closed spec fn wf(&self) -> bool {
        let n = self.saved@.len();
        &&& self.parents@.len() == n
        &&& forall|k: int| 0 <= k < self.stack@.len() ==> #[trigger] self.stack@[k] < n && !self.saved@[self.stack@[k] as int]
        &&& forall|d: int| 0 <= d < n && !#[trigger] self.saved@[d] ==> exists|k: int| 0 <= k < self.stack@.len() && self.stack@[k] == d
        &&& forall|a: int, b: int| 0 <= a < self.stack@.len() && 0 <= b < self.stack@.len() && #[trigger] self.stack@[a] == #[trigger] self.stack@[b] ==> a == b
        &&& forall|a: int, b: int| 0 <= a < self.stack@.len() && 0 <= b < self.stack@.len()
            && #[trigger] self.parents@[self.stack@[b] as int] == Some(#[trigger] self.stack@[a]) ==> a < b
        &&& forall|d: int| 0 <= d < n && (#[trigger] self.parents@[d]) is Some ==> self.parents@[d]->Some_0 < d
    }

    /// No directory registered yet.
    pub fn new() -> (r: SaveOrder)
        ensures
            r.wf(),
            r.parents_view().len() == 0,
    {
        SaveOrder { parents: Vec::new(), saved: Vec::new(), stack: Vec::new() }
    }

    /// Registers a directory that the walk entered, below `parent` (a
    /// directory not saved yet), and returns its number.
    pub fn enter(&mut self, parent: Option<usize>) -> (r: usize)
        requires
            old(self).wf(),
            old(self).parents_view().len() < usize::MAX,
            parent is Some ==> parent->Some_0 < old(self).parents_view().len() && !old(self).saved_view()[parent->Some_0 as int],
        ensures
            final(self).wf(),
            r == old(self).parents_view().len(),
            final(self).parents_view() == old(self).parents_view().push(parent),
            final(self).saved_view() == old(self).saved_view().push(false),
    {
        let n = self.saved.len();
        proof {
            if parent is Some {
                let p = parent->Some_0 as int;
                assert(!self.saved@[p]);
            }
        }
        self.parents.push(parent);
        self.saved.push(false);
        let ghost st = self.stack@;
        self.stack.push(n);
        proof {
            assert forall|k: int| 0 <= k < self.stack@.len() implies #[trigger] self.stack@[k] < self.saved@.len() && !self.saved@[self.stack@[k] as int] by {
                if k < st.len() {
                    assert(self.stack@[k] == st[k]);
                }
            }
            assert forall|d: int| 0 <= d < self.saved@.len() && !#[trigger] self.saved@[d] implies exists|k: int| 0 <= k < self.stack@.len() && self.stack@[k] == d by {
                if d < n {
                    assert(!old(self).saved@[d]);
                    let k = choose|k: int| 0 <= k < st.len() && st[k] == d;
                    assert(self.stack@[k] == d);
                } else {
                    assert(self.stack@[st.len() as int] == d);
                }
            }
            assert forall|a: int, b: int| 0 <= a < self.stack@.len() && 0 <= b < self.stack@.len() && #[trigger] self.stack@[a] == #[trigger] self.stack@[b] implies a == b by {
                if a < st.len() {
                    assert(self.stack@[a] == st[a]);
                }
                if b < st.len() {
                    assert(self.stack@[b] == st[b]);
                }
            }
            assert forall|a: int, b: int| 0 <= a < self.stack@.len() && 0 <= b < self.stack@.len()
                && #[trigger] self.parents@[self.stack@[b] as int] == Some(#[trigger] self.stack@[a]) implies a < b by {
                if b < st.len() {
                    assert(self.stack@[b] == st[b]);
                    assert(self.parents@[st[b] as int] == old(self).parents@[st[b] as int]);
                    if a < st.len() {
                        assert(self.stack@[a] == st[a]);
                    } else {
                        assert(self.stack@[a] == n);
                        assert(old(self).parents@[st[b] as int] is Some);
                        assert(old(self).parents@[st[b] as int]->Some_0 < st[b]);
                    }
                } else {
                    if a == b {
                        assert(self.parents@[n as int] == parent);
                    }
                    if a < st.len() {
                    } else {
                        assert(a == b);
                    }
                    if parent is Some {
                        let p = parent->Some_0 as int;
                        let k = choose|k: int| 0 <= k < st.len() && st[k] == p;
                        if a != b {
                            assert(self.stack@[a] == st[a]);
                            assert(self.stack@[k] == st[k]);
                        }
                    }
                }
            }
            assert forall|d: int| 0 <= d < self.saved@.len() && (#[trigger] self.parents@[d]) is Some implies self.parents@[d]->Some_0 < d by {
                if d < n {
                    assert(self.parents@[d] == old(self).parents@[d]);
                }
            }
        }
        n
    }

    /// The next directory to save, marked saved: one not saved yet, all of
    /// whose subdirectories have been saved already. `None` once every
    /// registered directory is saved.
    pub fn next_to_save(&mut self) -> (r: Option<usize>)
        requires
            old(self).wf(),
        ensures
            final(self).wf(),
            final(self).parents_view() == old(self).parents_view(),
            r is None <==> forall|d: int| 0 <= d < old(self).saved_view().len() ==> #[trigger] old(self).saved_view()[d],
            r is None ==> final(self).saved_view() == old(self).saved_view(),
            r is Some ==> r->Some_0 < old(self).saved_view().len() && !old(self).saved_view()[r->Some_0 as int]
                && final(self).saved_view() == old(self).saved_view().update(r->Some_0 as int, true),
            r is Some ==> forall|d: int| 0 <= d < old(self).parents_view().len()
                && #[trigger] old(self).parents_view()[d] == Some(r->Some_0) ==> old(self).saved_view()[d],
    {
        let ghost st = self.stack@;
        match self.stack.pop() {
            None => {
                proof {
                    assert forall|d: int| 0 <= d < self.saved@.len() implies #[trigger] self.saved@[d] by {
                        if !self.saved@[d] {
                            let k = choose|k: int| 0 <= k < st.len() && st[k] == d;
                        }
                    }
                }
                None
            },
            Some(t) => {
                let ghost top = st.len() - 1;
                proof {
                    assert(st[top] == t);
                    assert(!old(self).saved_view()[t as int]);
                    assert forall|d: int| 0 <= d < old(self).parents@.len() && #[trigger] old(self).parents@[d] == Some(t)
                        implies old(self).saved@[d] by {
                        if !old(self).saved@[d] {
                            let k = choose|k: int| 0 <= k < st.len() && st[k] == d;
                            assert(old(self).parents@[st[k] as int] == Some(st[top]));
                        }
                    }
                }
                self.saved.set(t, true);
                proof {
                    assert forall|k: int| 0 <= k < self.stack@.len() implies #[trigger] self.stack@[k] < self.saved@.len() && !self.saved@[self.stack@[k] as int] by {
                        assert(self.stack@[k] == st[k]);
                        assert(st[k] != st[top]);
                    }
                    assert forall|d: int| 0 <= d < self.saved@.len() && !#[trigger] self.saved@[d] implies exists|k: int| 0 <= k < self.stack@.len() && self.stack@[k] == d by {
                        assert(d != t);
                        assert(!old(self).saved@[d]);
                        let k = choose|k: int| 0 <= k < st.len() && st[k] == d;
                        assert(k != top);
                        assert(self.stack@[k] == d);
                    }
                    assert forall|a: int, b: int| 0 <= a < self.stack@.len() && 0 <= b < self.stack@.len() && #[trigger] self.stack@[a] == #[trigger] self.stack@[b] implies a == b by {
                        assert(self.stack@[a] == st[a] && self.stack@[b] == st[b]);
                    }
                    assert forall|a: int, b: int| 0 <= a < self.stack@.len() && 0 <= b < self.stack@.len()
                        && #[trigger] self.parents@[self.stack@[b] as int] == Some(#[trigger] self.stack@[a]) implies a < b by {
                        assert(self.stack@[a] == st[a] && self.stack@[b] == st[b]);
                    }
                }
                Some(t)
            },
        }
    }

    /// The parent of directory `d`, as registered.
    pub fn parent_of(&self, d: usize) -> (r: Option<usize>)
        requires
            d < self.parents_view().len(),
        ensures
            r == self.parents_view()[d as int],
    {
        self.parents[d]
    }
}

} // verus!
