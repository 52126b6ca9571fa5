//! A queue that serves its items by priority — highest or lowest — or by
//! age — oldest or newest. Items are kept in insertion order; each carries a
//! unique, increasing sequence number that also breaks priority ties, so
//! each mode picks one well-defined item.

use vstd::prelude::*;

verus! {

/// An element of the queue: a value with its priority and the insertion
/// sequence number that makes elements unique.
#[derive(Debug, Clone)]
pub struct Item<T> {
    pub id: usize,
    pub value: T,
    pub priority: i32,
}

impl<T> PartialEq for Item<T> {
    /// Items compare by priority and sequence number; the carried value does
    /// not take part.
    fn eq(&self, other: &Self) -> (r: bool) {
        self.priority == other.priority && self.id == other.id
    }
}

impl<T> vstd::std_specs::cmp::PartialEqSpecImpl for Item<T> {
    open spec fn obeys_eq_spec() -> bool {
        true
    }

    open spec fn eq_spec(&self, other: &Self) -> bool {
        self.priority == other.priority && self.id == other.id
    }
}

impl<T> Eq for Item<T> {

}

impl<T> PartialOrd for Item<T> {
    /// Items order by priority first, then by sequence number.
    fn partial_cmp(&self, other: &Self) -> (r: Option<core::cmp::Ordering>) {
        if self.priority < other.priority {
            Some(core::cmp::Ordering::Less)
        } else if other.priority < self.priority {
            Some(core::cmp::Ordering::Greater)
        } else if self.id < other.id {
            Some(core::cmp::Ordering::Less)
        } else if other.id < self.id {
            Some(core::cmp::Ordering::Greater)
        } else {
            Some(core::cmp::Ordering::Equal)
        }
    }
}

impl<T> vstd::std_specs::cmp::PartialOrdSpecImpl for Item<T> {
    open spec fn obeys_partial_cmp_spec() -> bool {
        true
    }

    open spec fn partial_cmp_spec(&self, other: &Self) -> Option<core::cmp::Ordering> {
        if self.priority < other.priority {
            Some(core::cmp::Ordering::Less)
        } else if other.priority < self.priority {
            Some(core::cmp::Ordering::Greater)
        } else if self.id < other.id {
            Some(core::cmp::Ordering::Less)
        } else if other.id < self.id {
            Some(core::cmp::Ordering::Greater)
        } else {
            Some(core::cmp::Ordering::Equal)
        }
    }
}

/// `a` ranks strictly below `b`: lower priority, or the same priority and an
/// earlier sequence number.
pub open spec fn item_below<T>(a: Item<T>, b: Item<T>) -> bool {
    a.priority < b.priority || (a.priority == b.priority && a.id < b.id)
}

/// Which item the queue serves.
#[allow(non_camel_case_types)]
pub enum Mode {
    /// The item that ranks above all others.
    HIGHEST,
    /// The item that ranks below all others.
    LOWEST,
    /// The item inserted last.
    NEWEST,
    /// The item inserted first.
    OLDEST,
}

/// The queue itself: items in insertion order, and the next sequence number.
pub struct BiPriorityQueue<T> {
    items: Vec<Item<T>>,
    counter: usize,
}

impl<T> BiPriorityQueue<T> {
    /// The items, oldest first.
    pub closed spec fn items_seq(self) -> Seq<Item<T>> {
        self.items@
    }

    /// The sequence number the next insertion will take.
    pub closed spec fn spec_counter(self) -> usize {
        self.counter
    }

    /// Sequence numbers increase with insertion order and stay below the
    /// counter, so no two items compare equal.
    pub open spec fn wf(self) -> bool {
        &&& forall|i: int, j: int|
            0 <= i < j < self.items_seq().len() ==> (#[trigger] self.items_seq()[i]).id < (
            #[trigger] self.items_seq()[j]).id
        &&& forall|i: int|
            0 <= i < self.items_seq().len() ==> (#[trigger] self.items_seq()[i]).id
                < self.spec_counter()
    }

    /// An empty queue.
    pub fn new() -> (q: Self)
        ensures
            q.wf(),
            q.items_seq().len() == 0,
            q.spec_counter() == 0,
    {
        BiPriorityQueue { items: Vec::new(), counter: 0 }
    }

    /// Append a value with the given priority, under a fresh sequence
    /// number.
    pub fn enqueue(&mut self, value: T, priority: i32)
        requires
            old(self).wf(),
            old(self).spec_counter() < usize::MAX,
        ensures
            final(self).wf(),
            final(self).items_seq() == old(self).items_seq().push(
                (Item { id: old(self).spec_counter(), value, priority }),
            ),
            final(self).spec_counter() == old(self).spec_counter() + 1,
    {
        let item = Item { id: self.counter, value, priority };
        self.counter = self.counter + 1;
        self.items.push(item);
        proof {
            let s = old(self).items_seq();
            let t = self.items_seq();
            assert(forall|a: int| 0 <= a < s.len() ==> (#[trigger] t[a]) == s[a]);
            assert(t[s.len() as int].id == old(self).spec_counter());
        }
    }

    /// Whether `a` ranks strictly below `b`.
    fn below(a: &Item<T>, b: &Item<T>) -> (r: bool)
        ensures
            r == item_below(*a, *b),
    {
        a.priority < b.priority || (a.priority == b.priority && a.id < b.id)
    }

    /// The position of the top-ranked item.
    fn max_pos(&self) -> (p: usize)
        requires
            self.wf(),
            self.items_seq().len() > 0,
        ensures
            p < self.items_seq().len(),
            forall|j: int|
                0 <= j < self.items_seq().len() && j != p ==> item_below(
                    #[trigger] self.items_seq()[j],
                    self.items_seq()[p as int],
                ),
    {
        let n = self.items.len();
        let mut best: usize = 0;
        let mut i: usize = 1;
        while i < n
            invariant
                self.wf(),
                n == self.items_seq().len(),
                0 <= best < i <= n,
                forall|j: int|
                    0 <= j < i && j != best ==> item_below(
                        #[trigger] self.items_seq()[j],
                        self.items_seq()[best as int],
                    ),
            decreases n - i,
        {
            if Self::below(&self.items[best], &self.items[i]) {
                best = i;
            }
            i = i + 1;
        }
        best
    }

    /// The position of the bottom-ranked item.
    fn min_pos(&self) -> (p: usize)
        requires
            self.wf(),
            self.items_seq().len() > 0,
        ensures
            p < self.items_seq().len(),
            forall|j: int|
                0 <= j < self.items_seq().len() && j != p ==> item_below(
                    self.items_seq()[p as int],
                    #[trigger] self.items_seq()[j],
                ),
    {
        let n = self.items.len();
        let mut best: usize = 0;
        let mut i: usize = 1;
        while i < n
            invariant
                self.wf(),
                n == self.items_seq().len(),
                0 <= best < i <= n,
                forall|j: int|
                    0 <= j < i && j != best ==> item_below(
                        self.items_seq()[best as int],
                        #[trigger] self.items_seq()[j],
                    ),
            decreases n - i,
        {
            if Self::below(&self.items[i], &self.items[best]) {
                best = i;
            }
            i = i + 1;
        }
        best
    }

    /// A view of the value the given mode would serve, without removing it;
    /// `None` only when the queue is empty.
    pub fn peek(&self, mode: Mode) -> (r: Option<&T>)
        requires
            self.wf(),
        ensures
            r is Some <==> self.items_seq().len() > 0,
            mode is HIGHEST && self.items_seq().len() > 0 ==> (r matches Some(v) && exists|
                i: int,
            |
                #![auto]
                0 <= i < self.items_seq().len() && *v == self.items_seq()[i].value && (forall|
                    j: int,
                |
                    0 <= j < self.items_seq().len() && j != i ==> item_below(
                        #[trigger] self.items_seq()[j],
                        self.items_seq()[i],
                    ))),
            mode is LOWEST && self.items_seq().len() > 0 ==> (r matches Some(v) && exists|i: int|
                #![auto]
                0 <= i < self.items_seq().len() && *v == self.items_seq()[i].value && (forall|
                    j: int,
                |
                    0 <= j < self.items_seq().len() && j != i ==> item_below(
                        self.items_seq()[i],
                        #[trigger] self.items_seq()[j],
                    ))),
            mode is OLDEST && self.items_seq().len() > 0 ==> (r matches Some(v) && *v
                == self.items_seq()[0].value),
            mode is NEWEST && self.items_seq().len() > 0 ==> (r matches Some(v) && *v
                == self.items_seq().last().value),
    {
        if self.items.len() == 0 {
            return None;
        }
        match mode {
            Mode::HIGHEST => {
                let p = self.max_pos();
                Some(&self.items[p].value)
            },
            Mode::LOWEST => {
                let p = self.min_pos();
                Some(&self.items[p].value)
            },
            Mode::OLDEST => Some(&self.items[0].value),
            Mode::NEWEST => Some(&self.items[self.items.len() - 1].value),
        }
    }

    /// Remove and return the item carrying the given sequence number, if it
    /// is present.
    fn remove_by_id(&mut self, id: usize) -> (r: Option<Item<T>>)
        requires
            old(self).wf(),
        ensures
            final(self).wf(),
            final(self).spec_counter() == old(self).spec_counter(),
            r is None ==> *final(self) == *old(self) && (forall|i: int|
                0 <= i < old(self).items_seq().len() ==> (#[trigger] old(self).items_seq()[i]).id
                    != id),
            r matches Some(item) ==> exists|i: int|
                #![auto]
                0 <= i < old(self).items_seq().len() && old(self).items_seq()[i] == item
                    && item.id == id && final(self).items_seq() == old(self).items_seq().remove(i),
    {
        let n = self.items.len();
        let mut i: usize = 0;
        while i < n
            invariant
                *self == *old(self),
                self.wf(),
                n == self.items_seq().len(),
                0 <= i <= n,
                forall|j: int| 0 <= j < i ==> (#[trigger] self.items_seq()[j]).id != id,
            decreases n - i,
        {
            if self.items[i].id == id {
                let item = self.items.remove(i);
                proof {
                    let s = old(self).items_seq();
                    let t = self.items_seq();
                    assert(forall|a: int| 0 <= a < i ==> (#[trigger] t[a]) == s[a]);
                    assert(forall|a: int| i <= a < t.len() ==> (#[trigger] t[a]) == s[a + 1]);
                    assert forall|a: int, b: int| 0 <= a < b < t.len() implies t[a].id
                        < t[b].id by {
                        let a2: int = if a < i { a } else { a + 1 };
                        let b2: int = if b < i { b } else { b + 1 };
                        assert(t[a] == s[a2] && t[b] == s[b2]);
                    }
                }
                return Some(item);
            }
            i = i + 1;
        }
        None
    }

    /// Remove and return the value the given mode serves: the top- or
    /// bottom-ranked item, or the oldest or newest one. `None` only when the
    /// queue is empty.
    pub fn dequeue(&mut self, mode: Mode) -> (r: Option<T>)
        requires
            old(self).wf(),
        ensures
            final(self).wf(),
            final(self).spec_counter() == old(self).spec_counter(),
            r is Some <==> old(self).items_seq().len() > 0,
            old(self).items_seq().len() == 0 ==> *final(self) == *old(self),
            mode is HIGHEST && old(self).items_seq().len() > 0 ==> exists|i: int|
                #![auto]
                0 <= i < old(self).items_seq().len() && r == Some(old(self).items_seq()[i].value)
                    && final(self).items_seq() == old(self).items_seq().remove(i) && (forall|
                    j: int,
                |
                    0 <= j < old(self).items_seq().len() && j != i ==> item_below(
                        #[trigger] old(self).items_seq()[j],
                        old(self).items_seq()[i],
                    )),
            mode is LOWEST && old(self).items_seq().len() > 0 ==> exists|i: int|
                #![auto]
                0 <= i < old(self).items_seq().len() && r == Some(old(self).items_seq()[i].value)
                    && final(self).items_seq() == old(self).items_seq().remove(i) && (forall|
                    j: int,
                |
                    0 <= j < old(self).items_seq().len() && j != i ==> item_below(
                        old(self).items_seq()[i],
                        #[trigger] old(self).items_seq()[j],
                    )),
            mode is OLDEST && old(self).items_seq().len() > 0 ==> r == Some(
                old(self).items_seq()[0].value,
            ) && final(self).items_seq() == old(self).items_seq().remove(0),
            mode is NEWEST && old(self).items_seq().len() > 0 ==> r == Some(
                old(self).items_seq().last().value,
            ) && final(self).items_seq() == old(self).items_seq().drop_last(),
    {
        if self.items.len() == 0 {
            return None;
        }
        match mode {
            Mode::HIGHEST => {
                let p = self.max_pos();
                let id = self.items[p].id;
                match self.remove_by_id(id) {
                    Some(item) => {
                        proof {
                            let i = choose|i: int|
                                #![auto]
                                0 <= i < old(self).items_seq().len() && old(self).items_seq()[i]
                                    == item && item.id == id && self.items_seq() == old(
                                    self,
                                ).items_seq().remove(i);
                            assert(i == p as int);
                        }
                        Some(item.value)
                    },
                    None => None,
                }
            },
            Mode::LOWEST => {
                let p = self.min_pos();
                let id = self.items[p].id;
                match self.remove_by_id(id) {
                    Some(item) => {
                        proof {
                            let i = choose|i: int|
                                #![auto]
                                0 <= i < old(self).items_seq().len() && old(self).items_seq()[i]
                                    == item && item.id == id && self.items_seq() == old(
                                    self,
                                ).items_seq().remove(i);
                            assert(i == p as int);
                        }
                        Some(item.value)
                    },
                    None => None,
                }
            },
            Mode::OLDEST => {
                let item = self.items.remove(0);
                proof {
                    let s = old(self).items_seq();
                    let t = self.items_seq();
                    assert forall|a: int, b: int| 0 <= a < b < t.len() implies t[a].id
                        < t[b].id by {
                        assert(t[a] == s[a + 1] && t[b] == s[b + 1]);
                    }
                }
                Some(item.value)
            },
            Mode::NEWEST => {
                match self.items.pop() {
                    Some(item) => {
                        proof {
                            assert(self.items_seq() =~= old(self).items_seq().drop_last());
                        }
                        Some(item.value)
                    },
                    None => None,
                }
            },
        }
    }
}

} // verus!
