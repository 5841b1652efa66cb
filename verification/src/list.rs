//! The owned collection of items: identifier allocation, keyed mutation
//! and query operations, and the partition into active and completed items.
//!
//! Items are addressed by their stable `id`; a lookup walks the list in
//! order and acts on the first (and, in a well-formed list, only) match.

use vstd::prelude::*;

use crate::error::TodoError;
use crate::item::ItemModel;
use crate::item::TodoItem;
use crate::item::models_of;
use crate::text::has_visible;
use crate::text::has_visible_char;
use crate::text::spec_trim;

verus! {

#[derive(Debug)]
pub struct TodoList {
    pub items: Vec<TodoItem>,
    /// Strictly greater than every id ever issued or loaded.
    pub next_id: u32,
}

/// Some item of `s` carries this id.
pub open spec fn has_id(s: Seq<TodoItem>, id: u32) -> bool {
    exists|i: int| 0 <= i < s.len() && s[i].id == id
}

/// `i` is the position of the first item of `s` carrying this id.
pub open spec fn is_first_match(s: Seq<TodoItem>, id: u32, i: int) -> bool {
    &&& 0 <= i < s.len()
    &&& s[i].id == id
    &&& forall|j: int| 0 <= j < i ==> s[j].id != id
}

/// The item models still open, in list order.
pub open spec fn active_models(s: Seq<ItemModel>) -> Seq<ItemModel> {
    s.filter(|m: ItemModel| !m.completed)
}

/// The item models already completed, in list order.
pub open spec fn completed_models(s: Seq<ItemModel>) -> Seq<ItemModel> {
    s.filter(|m: ItemModel| m.completed)
}

/// The models of a sequence of item references, in order.
pub open spec fn models_of_refs(s: Seq<&TodoItem>) -> Seq<ItemModel> {
    s.map_values(|t: &TodoItem| t.model())
}

proof fn lemma_active_push(s: Seq<ItemModel>, m: ItemModel)
    ensures
        active_models(s.push(m)) == if !m.completed {
            active_models(s).push(m)
        } else {
            active_models(s)
        },
{
    reveal(Seq::filter);
    assert(s.push(m).drop_last() =~= s);
}

proof fn lemma_completed_push(s: Seq<ItemModel>, m: ItemModel)
    ensures
        completed_models(s.push(m)) == if m.completed {
            completed_models(s).push(m)
        } else {
            completed_models(s)
        },
{
    reveal(Seq::filter);
    assert(s.push(m).drop_last() =~= s);
}

/// Every item model is either active or completed: the two partitions
/// together always count exactly the whole list.
pub proof fn lemma_active_completed_partition(s: Seq<ItemModel>)
    ensures
        active_models(s).len() + completed_models(s).len() == s.len(),
    decreases s.len(),
{
    reveal(Seq::filter);
    if s.len() > 0 {
        lemma_active_completed_partition(s.drop_last());
    }
}

impl TodoList {
    /// Well-formedness: the counter is at least 1 and exceeds every id in
    /// the list, ids are pairwise distinct, and every title is valid.
    pub open spec fn wf(&self) -> bool {
        &&& self.next_id >= 1
        &&& forall|i: int|
            0 <= i < self.items@.len() ==> (#[trigger] self.items@[i]).id < self.next_id
        &&& forall|i: int, j: int|
            0 <= i < j < self.items@.len() ==> self.items@[i].id != self.items@[j].id
        &&& forall|i: int| 0 <= i < self.items@.len() ==> (#[trigger] self.items@[i]).valid()
    }

    /// The empty list; ids will be issued from 1 up.
    pub fn new() -> (r: TodoList)
        ensures
            r.items@.len() == 0,
            r.next_id == 1,
            r.wf(),
    {
        TodoList { items: Vec::new(), next_id: 1 }
    }

    /// The position of the first item carrying `id`, if any.
    fn find_index(&self, id: u32) -> (r: Option<usize>)
        ensures
            match r {
                Some(i) => is_first_match(self.items@, id, i as int),
                None => !has_id(self.items@, id),
            },
    {
        let n = self.items.len();
        let mut i: usize = 0;
        while i < n
            invariant
                n == self.items@.len(),
                i <= n,
                forall|j: int| 0 <= j < i ==> self.items@[j].id != id,
            decreases n - i,
        {
            if self.items[i].id == id {
                return Some(i);
            }
            i += 1;
        }
        None
    }

    /// Allocates the next id, appends a new item built from the trimmed
    /// title, and advances the counter. Propagates the empty-title failure
    /// without touching the list.
    pub fn add_item(&mut self, title: &str) -> (r: Result<u32, TodoError>)
        requires
            old(self).next_id < u32::MAX,
        ensures
            match r {
                Ok(id) => {
                    &&& has_visible_char(title@)
                    &&& id == old(self).next_id
                    &&& final(self).next_id == old(self).next_id + 1
                    &&& models_of(final(self).items@) == models_of(old(self).items@).push(
                        ItemModel { id, completed: false, title: spec_trim(title@) },
                    )
                },
                Err(e) => {
                    &&& !has_visible_char(title@)
                    &&& e == TodoError::ValidationError
                    &&& *final(self) == *old(self)
                },
            },
            old(self).wf() ==> final(self).wf(),
    {
        let id = self.next_id;
        match TodoItem::new(id, title) {
            Err(e) => Err(e),
            Ok(item) => {
                let ghost m = item.model();
                self.items.push(item);
                self.next_id = self.next_id + 1;
                proof {
                    let s0 = old(self).items@;
                    let s1 = self.items@;
                    assert(models_of(s1) =~= models_of(s0).push(m));
                    if old(self).wf() {
                        assert forall|i: int, j: int|
                            0 <= i < j < s1.len() implies s1[i].id != s1[j].id by {
                            if j < s0.len() {
                            } else {
                                assert(s0[i].id < old(self).next_id);
                            }
                        }
                        assert(self.wf());
                    }
                }
                Ok(id)
            },
        }
    }

    /// Removes the first item carrying `id` and reports whether one was
    /// there; an absent id is a no-op, not a failure.
    pub fn remove_item(&mut self, id: u32) -> (removed: bool)
        ensures
            removed == has_id(old(self).items@, id),
            !removed ==> *final(self) == *old(self),
            removed ==> exists|i: int|
                #[trigger] is_first_match(old(self).items@, id, i) && final(self).items@ == old(
                    self,
                ).items@.remove(i),
            final(self).next_id == old(self).next_id,
            old(self).wf() ==> final(self).wf(),
    {
        match self.find_index(id) {
            Some(i) => {
                self.items.remove(i);
                proof {
                    let s0 = old(self).items@;
                    let s1 = self.items@;
                    s0.remove_ensures(i as int);
                    assert(is_first_match(s0, id, i as int) && s1 == s0.remove(i as int));
                    assert(has_id(s0, id));
                    if old(self).wf() {
                        assert forall|k: int| 0 <= k < s1.len() implies (#[trigger] s1[k]).id
                            < self.next_id && s1[k].valid() by {
                            if k < i {
                                assert(s1[k] == s0[k]);
                            } else {
                                assert(s1[k] == s0[k + 1]);
                            }
                        }
                        assert forall|k: int, l: int|
                            0 <= k < l < s1.len() implies s1[k].id != s1[l].id by {
                            let k0 = if k < i { k } else { k + 1 };
                            let l0 = if l < i { l } else { l + 1 };
                            assert(s1[k] == s0[k0]);
                            assert(s1[l] == s0[l0]);
                        }
                        assert(self.wf());
                    }
                }
                true
            },
            None => false,
        }
    }

    /// A read-only view of the first item carrying `id`; absence is a
    /// normal outcome, not a failure.
    pub fn get_item(&self, id: u32) -> (r: Option<&TodoItem>)
        ensures
            match r {
                Some(item) => exists|i: int|
                    #[trigger] is_first_match(self.items@, id, i) && *item == self.items@[i],
                None => !has_id(self.items@, id),
            },
    {
        match self.find_index(id) {
            Some(i) => {
                let item = &self.items[i];
                proof {
                    assert(is_first_match(self.items@, id, i as int) && *item
                        == self.items@[i as int]);
                }
                Some(item)
            },
            None => None,
        }
    }

    /// A mutable view of the first item carrying `id`; absence is a
    /// normal outcome. Whatever the caller writes through the reference
    /// is what the list then holds at that position, so well-formedness
    /// afterwards is the caller's burden.
    pub fn get_item_mut(&mut self, id: u32) -> (r: Option<&mut TodoItem>)
        ensures
            match r {
                Some(p) => exists|i: int|
                    #[trigger] is_first_match(old(self).items@, id, i) && *p == old(
                        self,
                    ).items@[i] && final(self).items@ == old(self).items@.update(i, *final(p)),
                None => !has_id(old(self).items@, id) && *final(self) == *old(self),
            },
            final(self).next_id == old(self).next_id,
    {
        match self.find_index(id) {
            Some(i) => Some(&mut self.items[i]),
            None => None,
        }
    }

    /// Sets the completion flag of the item carrying `id`; false when the
    /// id is absent, and then nothing changes. Marking an already
    /// completed item still reports true: the item was found.
    pub fn mark_as_completed(&mut self, id: u32) -> (r: bool)
        ensures
            r == has_id(old(self).items@, id),
            !r ==> *final(self) == *old(self),
            r ==> exists|i: int|
                #[trigger] is_first_match(old(self).items@, id, i) && models_of(
                    final(self).items@,
                ) == models_of(old(self).items@).update(
                    i,
                    ItemModel { id, completed: true, title: old(self).items@[i].title@ },
                ),
            final(self).next_id == old(self).next_id,
            old(self).wf() ==> final(self).wf(),
    {
        match self.find_index(id) {
            Some(i) => {
                self.items[i].completed = true;
                proof {
                    let s0 = old(self).items@;
                    let s1 = self.items@;
                    let m = ItemModel { id, completed: true, title: s0[i as int].title@ };
                    assert(models_of(s1) =~= models_of(s0).update(i as int, m));
                    assert(is_first_match(s0, id, i as int) && models_of(s1) == models_of(
                        s0,
                    ).update(i as int, m));
                    if old(self).wf() {
                        assert forall|k: int, l: int|
                            0 <= k < l < s1.len() implies s1[k].id != s1[l].id by {
                            assert(s0[k].id != s0[l].id);
                        }
                        assert(self.wf());
                    }
                }
                true
            },
            None => false,
        }
    }

    /// Flips the completion flag of the item carrying `id`; false when the
    /// id is absent, and then nothing changes.
    pub fn toggle_complete(&mut self, id: u32) -> (r: bool)
        ensures
            r == has_id(old(self).items@, id),
            !r ==> *final(self) == *old(self),
            r ==> exists|i: int|
                #[trigger] is_first_match(old(self).items@, id, i) && models_of(
                    final(self).items@,
                ) == models_of(old(self).items@).update(
                    i,
                    ItemModel {
                        id,
                        completed: !old(self).items@[i].completed,
                        title: old(self).items@[i].title@,
                    },
                ),
            final(self).next_id == old(self).next_id,
            old(self).wf() ==> final(self).wf(),
    {
        match self.find_index(id) {
            Some(i) => {
                self.items[i].completed = !self.items[i].completed;
                proof {
                    let s0 = old(self).items@;
                    let s1 = self.items@;
                    let m = ItemModel {
                        id,
                        completed: !s0[i as int].completed,
                        title: s0[i as int].title@,
                    };
                    assert(models_of(s1) =~= models_of(s0).update(i as int, m));
                    assert(is_first_match(s0, id, i as int) && models_of(s1) == models_of(
                        s0,
                    ).update(i as int, m));
                    if old(self).wf() {
                        assert forall|k: int, l: int|
                            0 <= k < l < s1.len() implies s1[k].id != s1[l].id by {
                            assert(s0[k].id != s0[l].id);
                        }
                        assert(self.wf());
                    }
                }
                true
            },
            None => false,
        }
    }

    /// Replaces the title of the item carrying `id` with the new title as
    /// given, untrimmed; false when the id is absent or the new title has
    /// no visible character, and then nothing changes.
    pub fn update_item_title(&mut self, id: u32, new_title: &str) -> (r: bool)
        ensures
            r == (has_id(old(self).items@, id) && has_visible_char(new_title@)),
            !r ==> *final(self) == *old(self),
            r ==> exists|i: int|
                #[trigger] is_first_match(old(self).items@, id, i) && models_of(
                    final(self).items@,
                ) == models_of(old(self).items@).update(
                    i,
                    ItemModel {
                        id,
                        completed: old(self).items@[i].completed,
                        title: new_title@,
                    },
                ),
            final(self).next_id == old(self).next_id,
            old(self).wf() ==> final(self).wf(),
    {
        match self.find_index(id) {
            Some(i) => {
                if has_visible(new_title) {
                    self.items[i].title = new_title.to_owned();
                    proof {
                        let s0 = old(self).items@;
                        let s1 = self.items@;
                        let m = ItemModel {
                            id,
                            completed: s0[i as int].completed,
                            title: new_title@,
                        };
                        assert(models_of(s1) =~= models_of(s0).update(i as int, m));
                        assert(is_first_match(s0, id, i as int) && models_of(s1) == models_of(
                            s0,
                        ).update(i as int, m));
                        if old(self).wf() {
                            assert forall|k: int, l: int|
                                0 <= k < l < s1.len() implies s1[k].id != s1[l].id by {
                                assert(s0[k].id != s0[l].id);
                            }
                            assert(self.wf());
                        }
                    }
                    true
                } else {
                    false
                }
            },
            None => false,
        }
    }

    /// References to the items still open, in list order.
    pub fn get_active_items(&self) -> (r: Vec<&TodoItem>)
        ensures
            models_of_refs(r@) == active_models(models_of(self.items@)),
    {
        let mut out: Vec<&TodoItem> = Vec::new();
        let n = self.items.len();
        let mut i: usize = 0;
        while i < n
            invariant
                i <= n,
                n == self.items@.len(),
                models_of_refs(out@) == active_models(models_of(self.items@.take(i as int))),
            decreases n - i,
        {
            proof {
                assert(models_of(self.items@.take(i as int + 1)) =~= models_of(
                    self.items@.take(i as int),
                ).push(self.items@[i as int].model()));
                lemma_active_push(
                    models_of(self.items@.take(i as int)),
                    self.items@[i as int].model(),
                );
            }
            if !self.items[i].completed {
                let ghost before = out@;
                out.push(&self.items[i]);
                proof {
                    assert(models_of_refs(out@) =~= models_of_refs(before).push(
                        self.items@[i as int].model(),
                    ));
                }
            }
            i += 1;
        }
        proof {
            assert(self.items@.take(n as int) =~= self.items@);
        }
        out
    }

    /// References to the items already completed, in list order.
    pub fn get_completed_items(&self) -> (r: Vec<&TodoItem>)
        ensures
            models_of_refs(r@) == completed_models(models_of(self.items@)),
    {
        let mut out: Vec<&TodoItem> = Vec::new();
        let n = self.items.len();
        let mut i: usize = 0;
        while i < n
            invariant
                i <= n,
                n == self.items@.len(),
                models_of_refs(out@) == completed_models(models_of(self.items@.take(i as int))),
            decreases n - i,
        {
            proof {
                assert(models_of(self.items@.take(i as int + 1)) =~= models_of(
                    self.items@.take(i as int),
                ).push(self.items@[i as int].model()));
                lemma_completed_push(
                    models_of(self.items@.take(i as int)),
                    self.items@[i as int].model(),
                );
            }
            if self.items[i].completed {
                let ghost before = out@;
                out.push(&self.items[i]);
                proof {
                    assert(models_of_refs(out@) =~= models_of_refs(before).push(
                        self.items@[i as int].model(),
                    ));
                }
            }
            i += 1;
        }
        proof {
            assert(self.items@.take(n as int) =~= self.items@);
        }
        out
    }
}

/// A list whose items were issued their ids by successive `add_item` calls
/// on a fresh list: the i-th item carries id i+1, and the counter sits one
/// past the last id issued.
pub open spec fn sequentially_numbered(l: TodoList) -> bool {
    &&& l.next_id as int == l.items@.len() + 1
    &&& forall|i: int| 0 <= i < l.items@.len() ==> (#[trigger] l.items@[i]).id as int == i + 1
}

/// A fresh list is sequentially numbered: nothing issued yet, counter at 1.
pub proof fn lemma_new_sequentially_numbered(l: TodoList)
    requires
        l.items@.len() == 0,
        l.next_id == 1,
    ensures
        sequentially_numbered(l),
{
}

/// One successful `add_item` keeps a list sequentially numbered and issues
/// exactly the id one past the count of items already present: n adds in
/// sequence on a fresh list issue the ids 1 up to n, in order.
pub proof fn lemma_add_item_sequential(pre: TodoList, post: TodoList, id: u32, title: Seq<char>)
    requires
        sequentially_numbered(pre),
        id == pre.next_id,
        post.next_id == pre.next_id + 1,
        models_of(post.items@) == models_of(pre.items@).push(
            ItemModel { id, completed: false, title },
        ),
    ensures
        sequentially_numbered(post),
        id as int == pre.items@.len() + 1,
{
    let s0 = pre.items@;
    let s1 = post.items@;
    assert(models_of(s1).len() == s1.len());
    assert forall|i: int| 0 <= i < s1.len() implies (#[trigger] s1[i]).id as int == i + 1 by {
        assert(models_of(s1)[i] == s1[i].model());
        if i < s0.len() {
            assert(models_of(s1)[i] == models_of(s0)[i]);
            assert(models_of(s0)[i] == s0[i].model());
        } else {
            assert(models_of(s1)[i] == ItemModel { id, completed: false, title });
        }
    }
}

/// In a sequentially numbered list the issued ids are pairwise distinct,
/// strictly increasing in list order, and start at 1.
pub proof fn lemma_sequential_ids(l: TodoList)
    requires
        sequentially_numbered(l),
    ensures
        forall|i: int, j: int|
            0 <= i < j < l.items@.len() ==> l.items@[i].id < l.items@[j].id,
        l.items@.len() > 0 ==> l.items@[0].id == 1,
{
}

} // verus!
