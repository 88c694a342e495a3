use std::collections::HashMap;
use std::time::Duration;
use tokio::task::JoinHandle;
use vstd::prelude::*;
use crate::effects::{abort_unit, CancelLog};
use crate::task::{same_task, RecurrenceType, Task};

verus! {

broadcast use vstd::std_specs::hash::group_hash_axioms;

/// tokio's handle to a spawned unit, held opaquely to cancel the unit.
#[verifier::external_type_specification]
#[verifier::external_body]
#[verifier::reject_recursive_types(T)]
pub struct ExJoinHandle<T>(tokio::task::JoinHandle<T>);

/// tokio's join error, which `JoinHandle`'s `Future` impl names; opaque.
#[verifier::external_type_specification]
#[verifier::external_body]
pub struct ExJoinError(tokio::task::JoinError);

/// A task whose callback left the store on `execute`: the caller runs
/// `callback` with `task` in a unit of its own.
pub struct Dispatch<C> {
    pub task: Task,
    pub callback: C,
}

/// The task registry and its dispatcher.
///
/// `C` is the callback type. Ids are handed out from a counter that starts at
/// 1; each registered task is stored under its own id.
pub struct Scheduler<C> {
    task_id_counter: i32,
    tasks: HashMap<i32, Task>,
    tasks_cb: HashMap<i32, C>,
    name_to_id: Vec<(String, i32)>,
    names: Ghost<Map<Seq<char>, i32>>,
    running_tasks: Vec<(i32, JoinHandle<()>)>,
    cancelled: CancelLog,
}

/// The ids of a table of running units, in table order.
pub open spec fn ids_of(entries: Seq<(i32, JoinHandle<()>)>) -> Seq<i32> {
    entries.map_values(|e: (i32, JoinHandle<()>)| e.0)
}

/// `after` is `before` with one more task, under the next id, holding the
/// given name, delay, recurrence and callback; the name points at it.
pub open spec fn added<C>(
    before: Scheduler<C>,
    after: Scheduler<C>,
    name: Seq<char>,
    cb: C,
    delay: Duration,
    recurrence: RecurrenceType,
) -> bool {
    let id = (before.counter() + 1) as i32;
    &&& after.counter() == before.counter() + 1
    &&& !before.task_map().contains_key(id)
    &&& after.task_map().dom() == before.task_map().dom().insert(id)
    &&& forall|k: i32| k != id && #[trigger] before.task_map().contains_key(k)
        ==> after.task_map()[k] == before.task_map()[k]
    &&& after.task_map()[id].id == id
    &&& after.task_map()[id].name@ == name
    &&& after.task_map()[id].delay == delay
    &&& after.task_map()[id].recurrence == recurrence
    &&& after.callbacks() == before.callbacks().insert(id, cb)
    &&& after.names() == before.names().insert(name, id)
    &&& after.units() == before.units()
    &&& after.cancelled() == before.cancelled()
}

/// The names of the tasks with ids 1 to `upto`, in id order.
pub open spec fn listed(tasks: Map<i32, Task>, upto: int) -> Seq<Seq<char>>
    decreases upto,
{
    if upto <= 0 {
        Seq::empty()
    } else if tasks.contains_key(upto as i32) {
        listed(tasks, upto - 1).push(tasks[upto as i32].name@)
    } else {
        listed(tasks, upto - 1)
    }
}

/// `after` is `before` with the task `id` gone from the registry: its value,
/// its callback if still stored, and any name pointing at it.
pub open spec fn removed<C>(before: Scheduler<C>, after: Scheduler<C>, id: i32) -> bool {
    &&& after.counter() == before.counter()
    &&& after.task_map() == before.task_map().remove(id)
    &&& after.callbacks() == before.callbacks().remove(id)
    &&& forall|n: Seq<char>| #[trigger] after.names().contains_key(n) <==>
        before.names().contains_key(n) && before.names()[n] != id
    &&& forall|n: Seq<char>| #[trigger] after.names().contains_key(n)
        ==> after.names()[n] == before.names()[n]
    &&& after.units() == before.units()
    &&& after.cancelled() == before.cancelled()
}

/// `after` and `r` are what `execute` leaves and hands out from `before`:
/// every stored callback leaves the store, paired with its task, in id order;
/// one-shot tasks leave the registry and the name table; recurring tasks stay.
pub open spec fn dispatched<C>(before: Scheduler<C>, after: Scheduler<C>, r: Seq<Dispatch<C>>) -> bool {
    &&& after.counter() == before.counter()
    &&& forall|id: i32| #[trigger] after.task_map().contains_key(id) <==>
        before.task_map().contains_key(id) && !before.task_map()[id].recurrence.is_once()
    &&& forall|id: i32| #[trigger] after.task_map().contains_key(id)
        ==> after.task_map()[id] == before.task_map()[id]
    &&& after.callbacks() == Map::<i32, C>::empty()
    &&& forall|n: Seq<char>| #[trigger] after.names().contains_key(n) <==>
        before.names().contains_key(n) && after.task_map().contains_key(before.names()[n])
    &&& forall|n: Seq<char>| #[trigger] after.names().contains_key(n)
        ==> after.names()[n] == before.names()[n]
    &&& after.units() == before.units()
    &&& after.cancelled() == before.cancelled()
    &&& forall|i: int| #![trigger r[i]] 0 <= i < r.len() ==> {
        &&& before.callbacks().contains_key(r[i].task.id)
        &&& r[i].callback == before.callbacks()[r[i].task.id]
        &&& same_task(r[i].task, before.task_map()[r[i].task.id])
    }
    &&& forall|id: i32| #[trigger] before.callbacks().contains_key(id)
        ==> exists|i: int| 0 <= i < r.len() && #[trigger] r[i].task.id == id
    &&& forall|i: int, j: int| 0 <= i < j < r.len() ==> #[trigger] r[i].task.id < #[trigger] r[j].task.id
}

impl<C> Scheduler<C> {
    /// The last id handed out (0 before the first add).
    pub closed spec fn counter(&self) -> int {
        self.task_id_counter as int
    }

    /// The registered tasks, by id.
    pub closed spec fn task_map(&self) -> Map<i32, Task> {
        self.tasks@
    }

    /// The callbacks not yet dispatched, by task id.
    pub closed spec fn callbacks(&self) -> Map<i32, C> {
        self.tasks_cb@
    }

    /// The name lookup table.
    pub closed spec fn names(&self) -> Map<Seq<char>, i32> {
        self.names@
    }

    /// The tracked recurring units, as (task id, handle), in table order.
    pub closed spec fn units(&self) -> Seq<(i32, JoinHandle<()>)> {
        self.running_tasks@
    }

    /// The ids of the recurring units that are tracked for cancellation.
    pub open spec fn running(&self) -> Seq<i32> {
        ids_of(self.units())
    }

    /// The ids of the units this scheduler asked to cancel, oldest first.
    pub closed spec fn cancelled(&self) -> Seq<i32> {
        self.cancelled.ids()
    }

    /// The registry's invariant.
    pub closed spec fn wf(&self) -> bool {
        &&& 0 <= self.task_id_counter
        &&& forall|id: i32| #[trigger]
            self.tasks@.contains_key(id) ==> 1 <= id <= self.task_id_counter
                && self.tasks@[id].id == id
        &&& forall|id: i32| #[trigger]
            self.tasks_cb@.contains_key(id) ==> self.tasks@.contains_key(id)
        &&& forall|id: i32| #[trigger]
            self.tasks@.contains_key(id) && self.tasks@[id].recurrence.is_once()
                ==> self.tasks_cb@.contains_key(id)
        &&& forall|i: int| #![trigger self.name_to_id@[i]]
            0 <= i < self.name_to_id@.len() ==> self.names@.contains_key(self.name_to_id@[i].0@)
                && self.names@[self.name_to_id@[i].0@] == self.name_to_id@[i].1
        &&& forall|n: Seq<char>| #[trigger]
            self.names@.contains_key(n) ==> exists|i: int|
                0 <= i < self.name_to_id@.len() && #[trigger] self.name_to_id@[i].0@ == n
        &&& forall|i: int, j: int|
            0 <= i < self.name_to_id@.len() && 0 <= j < self.name_to_id@.len() && i != j
                ==> #[trigger] self.name_to_id@[i].0@ != #[trigger] self.name_to_id@[j].0@
        &&& forall|n: Seq<char>| #[trigger]
            self.names@.contains_key(n) ==> self.tasks@.contains_key(self.names@[n])
                && self.tasks@[self.names@[n]].name@ == n
        &&& self.running().no_duplicates()
        &&& forall|j: int| #![trigger self.running_tasks@[j]] 0 <= j < self.running_tasks@.len()
            ==> 1 <= self.running_tasks@[j].0 <= self.task_id_counter
                && !self.tasks_cb@.contains_key(self.running_tasks@[j].0)
    }

    /// An empty scheduler.
    pub fn new() -> (r: Self)
        ensures
            r.wf(),
            r.counter() == 0,
            r.task_map() == Map::<i32, Task>::empty(),
            r.callbacks() == Map::<i32, C>::empty(),
            r.names() == Map::<Seq<char>, i32>::empty(),
            r.running() == Seq::<i32>::empty(),
            r.cancelled() == Seq::<i32>::empty(),
    {
        let r = Scheduler {
            task_id_counter: 0,
            tasks: HashMap::new(),
            tasks_cb: HashMap::new(),
            name_to_id: Vec::new(),
            names: Ghost(Map::empty()),
            running_tasks: Vec::new(),
            cancelled: CancelLog::new(),
        };
        proof {
            assert(r.running() =~= Seq::<i32>::empty());
        }
        r
    }

    /// Points `name` at `id` in the name table, replacing what it pointed at.
    fn set_name(&mut self, name: String, id: i32)
        requires
            old(self).wf(),
            old(self).tasks@.contains_key(id),
            old(self).tasks@[id].name@ == name@,
        ensures
            final(self).wf(),
            final(self).names@ == old(self).names@.insert(name@, id),
            final(self).task_id_counter == old(self).task_id_counter,
            final(self).tasks@ == old(self).tasks@,
            final(self).tasks_cb@ == old(self).tasks_cb@,
            final(self).running_tasks@ == old(self).running_tasks@,
            final(self).cancelled() == old(self).cancelled(),
    {
        let found = self.find_name(&name);
        let ghost key = name@;
        match found {
            Some(i) => {
                self.name_to_id.set(i, (name, id));
            },
            None => {
                self.name_to_id.push((name, id));
            },
        }
        self.names = Ghost(self.names@.insert(key, id));
        proof {
            let e = self.name_to_id@;
            assert forall|n: Seq<char>| #[trigger] self.names@.contains_key(n) implies exists|j: int|
                0 <= j < e.len() && #[trigger] e[j].0@ == n by {
                if n == key {
                    match found {
                        Some(i) => assert(e[i as int].0@ == n),
                        None => assert(e[e.len() - 1].0@ == n),
                    }
                } else {
                    let j = choose|j: int| 0 <= j < old(self).name_to_id@.len()
                        && #[trigger] old(self).name_to_id@[j].0@ == n;
                    assert(e[j].0@ == n);
                }
            }
        }
    }

    /// Takes `name` out of the name table and returns the id it pointed at.
    fn take_name(&mut self, name: &String) -> (r: Option<i32>)
        requires
            old(self).wf(),
        ensures
            final(self).wf(),
            final(self).names@ == old(self).names@.remove(name@),
            r == (if old(self).names@.contains_key(name@) {
                Some(old(self).names@[name@])
            } else {
                None::<i32>
            }),
            final(self).task_id_counter == old(self).task_id_counter,
            final(self).tasks@ == old(self).tasks@,
            final(self).tasks_cb@ == old(self).tasks_cb@,
            final(self).running_tasks@ == old(self).running_tasks@,
            final(self).cancelled() == old(self).cancelled(),
    {
        match self.find_name(name) {
            Some(i) => {
                let ghost old_e = self.name_to_id@;
                let (_, id) = self.name_to_id.remove(i);
                self.names = Ghost(self.names@.remove(name@));
                proof {
                    let e = self.name_to_id@;
                    assert forall|k: int| 0 <= k < e.len() implies #[trigger] e[k] == if k < i {
                        old_e[k]
                    } else {
                        old_e[k + 1]
                    } by {}
                    assert forall|n: Seq<char>| #[trigger] self.names@.contains_key(n) implies exists|j: int|
                        0 <= j < e.len() && #[trigger] e[j].0@ == n by {
                        let j = choose|j: int| 0 <= j < old_e.len() && #[trigger] old_e[j].0@ == n;
                        assert(j != i);
                        if j < i {
                            assert(e[j].0@ == n);
                        } else {
                            assert(e[j - 1].0@ == n);
                        }
                    }
                    assert forall|a: int, b: int|
                        0 <= a < e.len() && 0 <= b < e.len() && a != b
                            implies #[trigger] e[a].0@ != #[trigger] e[b].0@ by {
                        let a2 = if a < i { a } else { a + 1 };
                        let b2 = if b < i { b } else { b + 1 };
                        assert(old_e[a2].0@ != old_e[b2].0@);
                    }
                    assert forall|k: int| #![trigger e[k]] 0 <= k < e.len() implies
                        self.names@.contains_key(e[k].0@) && self.names@[e[k].0@] == e[k].1 by {
                        let k2 = if k < i { k } else { k + 1 };
                        assert(old_e[k2].0@ != old_e[i as int].0@);
                    }
                }
                Some(id)
            },
            None => {
                assert(self.names@.remove(name@) =~= self.names@);
                None
            },
        }
    }

    /// Registers a task that fires once after `delay`; see
    /// [`Scheduler::add_recurring_task`].
    pub fn add_task(&mut self, name: String, cb: C, delay: Duration)
        requires
            old(self).wf(),
            old(self).counter() < i32::MAX,
        ensures
            final(self).wf(),
            added(*old(self), *final(self), name@, cb, delay, RecurrenceType::Once),
    {
        self.add_recurring_task(name, cb, delay, RecurrenceType::Once)
    }

    /// Registers a task under the next id: its value, its callback, and
    /// `name` pointing at it (a name already in use is pointed at the new id).
    pub fn add_recurring_task(
        &mut self,
        name: String,
        cb: C,
        delay: Duration,
        recurrence: RecurrenceType,
    )
        requires
            old(self).wf(),
            old(self).counter() < i32::MAX,
        ensures
            final(self).wf(),
            added(*old(self), *final(self), name@, cb, delay, recurrence),
    {
        let id = self.task_id_counter + 1;
        let task = Task { id, name: name.clone(), delay, recurrence };
        self.task_id_counter = id;
        self.tasks.insert(id, task);
        self.tasks_cb.insert(id, cb);
        proof {
            let old_tasks = old(self).tasks@;
            assert(!old_tasks.contains_key(id));
            assert forall|n: Seq<char>| #[trigger] self.names@.contains_key(n) implies
                self.tasks@.contains_key(self.names@[n])
                    && self.tasks@[self.names@[n]].name@ == n by {
                assert(old_tasks.contains_key(self.names@[n]));
            }
            assert forall|k: i32| #[trigger] self.tasks@.contains_key(k) implies
                1 <= k <= self.task_id_counter && self.tasks@[k].id == k by {
                if k != id {
                    assert(old_tasks.contains_key(k));
                }
            }
        }
        proof {
            assert forall|k: i32| #[trigger] self.tasks_cb@.contains_key(k) implies
                self.tasks@.contains_key(k) by {
                if k != id {
                    assert(old(self).tasks_cb@.contains_key(k));
                }
            }
            assert forall|k: i32| #[trigger] self.tasks@.contains_key(k)
                && self.tasks@[k].recurrence.is_once() implies self.tasks_cb@.contains_key(k) by {
                if k != id {
                    assert(old(self).tasks@.contains_key(k));
                }
            }
            Self::lemma_names_backed(*old(self), *self);
        }
        self.set_name(name, id);
        proof {
            assert(self.tasks@.dom() =~= old(self).tasks@.dom().insert(id));
        }
    }

    /// Takes out of the name table the name that points at `id`, if any.
    fn drop_name_of(&mut self, id: i32)
        requires
            old(self).wf(),
            old(self).tasks@.contains_key(id),
        ensures
            final(self).wf(),
            forall|n: Seq<char>| #[trigger] final(self).names@.contains_key(n) <==>
                old(self).names@.contains_key(n) && old(self).names@[n] != id,
            forall|n: Seq<char>| #[trigger] final(self).names@.contains_key(n)
                ==> final(self).names@[n] == old(self).names@[n],
            final(self).task_id_counter == old(self).task_id_counter,
            final(self).tasks@ == old(self).tasks@,
            final(self).tasks_cb@ == old(self).tasks_cb@,
            final(self).running_tasks@ == old(self).running_tasks@,
            final(self).cancelled() == old(self).cancelled(),
    {
        let name = match self.tasks.get(&id) {
            Some(t) => t.name.clone(),
            None => { return; },
        };
        match self.find_name(&name) {
            Some(i) => {
                if self.name_to_id[i].1 == id {
                    self.take_name(&name);
                } else {
                    proof {
                        assert forall|n: Seq<char>| #[trigger] self.names@.contains_key(n)
                            implies self.names@[n] != id by {
                            if self.names@[n] == id {
                                assert(n == name@);
                            }
                        }
                    }
                }
            },
            None => {
                proof {
                    assert forall|n: Seq<char>| #[trigger] self.names@.contains_key(n)
                        implies self.names@[n] != id by {
                        if self.names@[n] == id {
                            assert(n == name@);
                        }
                    }
                }
            },
        }
    }

    /// Removes the task `id`: its value, its callback if not yet dispatched,
    /// and the name that points at it. An unknown id changes nothing. A
    /// recurring unit already running for it is left running.
    pub fn remove_task(&mut self, id: i32)
        requires
            old(self).wf(),
        ensures
            final(self).wf(),
            removed(*old(self), *final(self), id),
    {
        if !self.tasks.contains_key(&id) {
            proof {
                assert(self.tasks@.remove(id) =~= self.tasks@);
                assert(self.tasks_cb@.remove(id) =~= self.tasks_cb@);
            }
            return;
        }
        self.drop_name_of(id);
        let ghost mid = *self;
        self.tasks_cb.remove(&id);
        self.tasks.remove(&id);
        proof {
            assert forall|k: i32| #[trigger] self.tasks@.contains_key(k)
                && self.tasks@[k].recurrence.is_once() implies self.tasks_cb@.contains_key(k) by {
                assert(old(self).tasks@.contains_key(k));
            }
            assert forall|n: Seq<char>| #[trigger] self.names@.contains_key(n) implies
                self.tasks@.contains_key(self.names@[n])
                    && self.tasks@[self.names@[n]].name@ == n by {
                assert(old(self).names@.contains_key(n));
            }
            assert forall|k: i32| #[trigger] self.tasks@.contains_key(k) implies
                1 <= k <= self.task_id_counter && self.tasks@[k].id == k by {
                assert(old(self).tasks@.contains_key(k));
            }
            assert forall|k: i32| #[trigger] self.tasks_cb@.contains_key(k) implies
                self.tasks@.contains_key(k) by {
                assert(old(self).tasks_cb@.contains_key(k));
            }
            Self::lemma_names_backed(mid, *self);
            assert(self.tasks@ =~= old(self).tasks@.remove(id));
            assert(self.tasks_cb@ =~= old(self).tasks_cb@.remove(id));
        }
    }

    /// Removes the task that `name` points at, with its callback and the
    /// name itself. An unknown name changes nothing.
    pub fn remove_task_by_name(&mut self, name: &str)
        requires
            old(self).wf(),
        ensures
            final(self).wf(),
            old(self).names().contains_key(name@) ==> {
                let id = old(self).names()[name@];
                &&& final(self).counter() == old(self).counter()
                &&& final(self).task_map() == old(self).task_map().remove(id)
                &&& final(self).callbacks() == old(self).callbacks().remove(id)
                &&& final(self).names() == old(self).names().remove(name@)
                &&& final(self).units() == old(self).units()
                &&& final(self).cancelled() == old(self).cancelled()
            },
            !old(self).names().contains_key(name@) ==> {
                &&& final(self).counter() == old(self).counter()
                &&& final(self).task_map() == old(self).task_map()
                &&& final(self).callbacks() == old(self).callbacks()
                &&& final(self).names() == old(self).names()
                &&& final(self).units() == old(self).units()
                &&& final(self).cancelled() == old(self).cancelled()
            },
    {
        let key = name.to_owned();
        match self.take_name(&key) {
            Some(id) => {
                let ghost mid = *self;
                self.tasks.remove(&id);
                self.tasks_cb.remove(&id);
                proof {
                    assert forall|n: Seq<char>| #[trigger] self.names@.contains_key(n) implies
                        self.tasks@.contains_key(self.names@[n])
                            && self.tasks@[self.names@[n]].name@ == n by {
                        assert(old(self).names@.contains_key(n));
                        assert(old(self).names@[name@] == id);
                        assert(old(self).tasks@[id].name@ == name@);
                    }
                    assert forall|k: i32| #[trigger] self.tasks@.contains_key(k)
                        && self.tasks@[k].recurrence.is_once() implies self.tasks_cb@.contains_key(k) by {
                        assert(old(self).tasks@.contains_key(k));
                    }
                    assert forall|k: i32| #[trigger] self.tasks_cb@.contains_key(k) implies
                        self.tasks@.contains_key(k) by {
                        assert(old(self).tasks_cb@.contains_key(k));
                    }
                    assert forall|k: i32| #[trigger] self.tasks@.contains_key(k) implies
                        1 <= k <= self.task_id_counter && self.tasks@[k].id == k by {
                        assert(old(self).tasks@.contains_key(k));
                    }
                    Self::lemma_names_backed(mid, *self);
                }
            },
            None => {
                assert(self.names@ =~= old(self).names@);
            },
        }
    }

    /// The last id handed out, if any task was ever added.
    pub fn get_last_task_id(&self) -> (r: Option<i32>)
        requires
            self.wf(),
        ensures
            r == (if self.counter() > 0 {
                Some(self.counter() as i32)
            } else {
                None::<i32>
            }),
    {
        if self.task_id_counter > 0 {
            Some(self.task_id_counter)
        } else {
            None
        }
    }

    /// The names of the registered tasks, one per task, in id order.
    pub fn list_tasks(&self) -> (r: Vec<&str>)
        requires
            self.wf(),
        ensures
            r@.map_values(|s: &str| s@) == listed(self.task_map(), self.counter()),
    {
        let mut out: Vec<&str> = Vec::new();
        let mut k: i32 = 0;
        while k < self.task_id_counter
            invariant
                self.wf(),
                0 <= k <= self.task_id_counter,
                out@.map_values(|s: &str| s@) == listed(self.tasks@, k as int),
            decreases self.task_id_counter - k,
        {
            k = k + 1;
            match self.tasks.get(&k) {
                Some(t) => {
                    out.push(t.name.as_str());
                },
                None => {},
            }
            proof {
                assert(out@.map_values(|s: &str| s@) =~= listed(self.tasks@, k as int));
            }
        }
        out
    }

    /// Dispatches every task whose callback is still stored, in id order.
    ///
    /// Each such callback leaves the store and is handed out with a copy of
    /// its task, so no task is dispatched twice. A one-shot task also leaves
    /// the registry and the name table; a recurring task stays registered,
    /// and the caller reports the unit it spawns with
    /// [`Scheduler::record_running`].
    pub fn execute(&mut self) -> (r: Vec<Dispatch<C>>)
        requires
            old(self).wf(),
        ensures
            final(self).wf(),
            dispatched(*old(self), *final(self), r@),
    {
        let mut out: Vec<Dispatch<C>> = Vec::new();
        let mut k: i32 = 0;
        while k < self.task_id_counter
            invariant
                self.wf(),
                0 <= k <= self.task_id_counter,
                self.task_id_counter == old(self).task_id_counter,
                self.running_tasks@ == old(self).running_tasks@,
                self.cancelled() == old(self).cancelled(),
                forall|id: i32| #[trigger] self.tasks@.contains_key(id) <==>
                    old(self).tasks@.contains_key(id)
                        && !(id <= k && old(self).tasks@[id].recurrence.is_once()),
                forall|id: i32| #[trigger] self.tasks@.contains_key(id)
                    ==> self.tasks@[id] == old(self).tasks@[id],
                forall|id: i32| #[trigger] self.tasks_cb@.contains_key(id) <==>
                    old(self).tasks_cb@.contains_key(id) && id > k,
                forall|id: i32| #[trigger] self.tasks_cb@.contains_key(id)
                    ==> self.tasks_cb@[id] == old(self).tasks_cb@[id],
                forall|n: Seq<char>| #[trigger] self.names@.contains_key(n) <==>
                    old(self).names@.contains_key(n) && self.tasks@.contains_key(old(self).names@[n]),
                forall|n: Seq<char>| #[trigger] self.names@.contains_key(n)
                    ==> self.names@[n] == old(self).names@[n],
                forall|i: int| #![trigger out@[i]] 0 <= i < out@.len() ==> {
                    &&& old(self).tasks_cb@.contains_key(out@[i].task.id)
                    &&& out@[i].task.id <= k
                    &&& out@[i].callback == old(self).tasks_cb@[out@[i].task.id]
                    &&& same_task(out@[i].task, old(self).tasks@[out@[i].task.id])
                },
                forall|id: i32| #[trigger] old(self).tasks_cb@.contains_key(id) && id <= k
                    ==> exists|i: int| 0 <= i < out@.len() && #[trigger] out@[i].task.id == id,
                forall|i: int, j: int| 0 <= i < j < out@.len()
                    ==> #[trigger] out@[i].task.id < #[trigger] out@[j].task.id,
            decreases self.task_id_counter - k,
        {
            k = k + 1;
            let id = k;
            if self.tasks_cb.contains_key(&id) {
                let task = self.tasks.get(&id).unwrap().duplicate();
                let once = task.recurrence.is_once();
                let ghost pre = *self;
                if once {
                    self.drop_name_of(id);
                }
                let ghost mid = *self;
                let callback = self.tasks_cb.remove(&id).unwrap();
                if once {
                    self.tasks.remove(&id);
                }
                let ghost prev = out@;
                out.push(Dispatch { task, callback });
                proof {
                    assert forall|kk: i32| #[trigger] self.tasks@.contains_key(kk) implies
                        1 <= kk <= self.task_id_counter && self.tasks@[kk].id == kk by {
                        assert(mid.tasks@.contains_key(kk));
                    }
                    assert forall|kk: i32| #[trigger] self.tasks_cb@.contains_key(kk) implies
                        self.tasks@.contains_key(kk) by {
                        assert(mid.tasks_cb@.contains_key(kk));
                        assert(mid.tasks@.contains_key(kk));
                    }
                    assert forall|kk: i32| #[trigger] self.tasks@.contains_key(kk)
                        && self.tasks@[kk].recurrence.is_once() implies self.tasks_cb@.contains_key(kk) by {
                        assert(mid.tasks@.contains_key(kk));
                    }
                    assert forall|n: Seq<char>| #[trigger] self.names@.contains_key(n) implies
                        self.tasks@.contains_key(self.names@[n])
                            && self.tasks@[self.names@[n]].name@ == n by {
                        assert(mid.names@.contains_key(n));
                    }
                    Self::lemma_names_backed(mid, *self);
                    assert forall|n: Seq<char>| #[trigger] self.names@.contains_key(n) <==>
                        old(self).names@.contains_key(n) && self.tasks@.contains_key(old(self).names@[n]) by {
                        if old(self).names@.contains_key(n) && pre.names@.contains_key(n) {
                            assert(pre.names@[n] == old(self).names@[n]);
                        }
                    }
                    assert forall|oid: i32| #[trigger] old(self).tasks_cb@.contains_key(oid) && oid <= k
                        implies exists|i: int| 0 <= i < out@.len() && #[trigger] out@[i].task.id == oid by {
                        if oid == id {
                            assert(out@[out@.len() - 1].task.id == oid);
                        } else {
                            let i = choose|i: int| 0 <= i < prev.len() && #[trigger] prev[i].task.id == oid;
                            assert(out@[i].task.id == oid);
                        }
                    }
                }
            }
        }
        proof {
            assert forall|id: i32| !#[trigger] self.tasks_cb@.contains_key(id) by {
                if self.tasks_cb@.contains_key(id) {
                    assert(self.tasks@.contains_key(id));
                }
            }
            assert(self.tasks_cb@ =~= Map::<i32, C>::empty());
        }
        out
    }

    /// Tracks the running unit of the recurring task `id`, dispatched
    /// already, for cancellation. A unit already tracked under `id` is
    /// cancelled and replaced.
    pub fn record_running(&mut self, id: i32, handle: JoinHandle<()>)
        requires
            old(self).wf(),
            old(self).task_map().contains_key(id),
            !old(self).task_map()[id].recurrence.is_once(),
            !old(self).callbacks().contains_key(id),
        ensures
            final(self).wf(),
            final(self).counter() == old(self).counter(),
            final(self).task_map() == old(self).task_map(),
            final(self).callbacks() == old(self).callbacks(),
            final(self).names() == old(self).names(),
            final(self).running() == (if old(self).running().contains(id) {
                old(self).running()
            } else {
                old(self).running().push(id)
            }),
            forall|j: int| #![trigger final(self).units()[j]] 0 <= j < final(self).units().len()
                ==> final(self).units()[j] == if final(self).units()[j].0 == id {
                    (id, handle)
                } else {
                    old(self).units()[j]
                },
            final(self).cancelled() == (if old(self).running().contains(id) {
                old(self).cancelled().push(id)
            } else {
                old(self).cancelled()
            }),
    {
        let mut i: usize = 0;
        while i < self.running_tasks.len()
            invariant
                *self == *old(self),
                self.wf(),
                i <= self.running_tasks@.len(),
                forall|j: int| 0 <= j < i ==> self.running_tasks@[j].0 != id,
            decreases self.running_tasks@.len() - i,
        {
            if self.running_tasks[i].0 == id {
                abort_unit(&self.running_tasks[i].1, id, &mut self.cancelled);
                self.running_tasks.set(i, (id, handle));
                proof {
                    assert(self.running() =~= old(self).running());
                    assert(old(self).running()[i as int] == id);
                    Self::lemma_names_backed(*old(self), *self);
                    assert forall|j: int| #![trigger self.running_tasks@[j]] 0 <= j < self.running_tasks@.len()
                        implies self.running_tasks@[j] == if self.running_tasks@[j].0 == id {
                            (id, handle)
                        } else {
                            old(self).running_tasks@[j]
                        } by {
                        if j != i {
                            assert(old(self).running()[j] == old(self).running_tasks@[j].0);
                            if old(self).running_tasks@[j].0 == id {
                                assert(old(self).running()[j] == old(self).running()[i as int]);
                            }
                        }
                    }
                }
                return;
            }
            i = i + 1;
        }
        proof {
            assert(!old(self).running().contains(id)) by {
                if old(self).running().contains(id) {
                    let j = choose|j: int| 0 <= j < old(self).running().len() && old(self).running()[j] == id;
                    assert(self.running_tasks@[j].0 == id);
                }
            }
        }
        self.running_tasks.push((id, handle));
        proof {
            assert(self.running() =~= old(self).running().push(id));
            Self::lemma_names_backed(*old(self), *self);
        }
    }

    /// Cancels every tracked running unit, in table order, and empties the
    /// table.
    pub fn stop(&mut self)
        ensures
            old(self).wf() ==> final(self).wf(),
            final(self).counter() == old(self).counter(),
            final(self).task_map() == old(self).task_map(),
            final(self).callbacks() == old(self).callbacks(),
            final(self).names() == old(self).names(),
            final(self).units() == Seq::<(i32, JoinHandle<()>)>::empty(),
            final(self).cancelled() == old(self).cancelled() + old(self).running(),
    {
        let mut i: usize = 0;
        while i < self.running_tasks.len()
            invariant
                self.task_id_counter == old(self).task_id_counter,
                self.tasks@ == old(self).tasks@,
                self.tasks_cb@ == old(self).tasks_cb@,
                self.names@ == old(self).names@,
                self.name_to_id@ == old(self).name_to_id@,
                self.running_tasks@ == old(self).running_tasks@,
                i <= self.running_tasks@.len(),
                self.cancelled() == old(self).cancelled() + old(self).running().subrange(0, i as int),
            decreases self.running_tasks@.len() - i,
        {
            let id = self.running_tasks[i].0;
            abort_unit(&self.running_tasks[i].1, id, &mut self.cancelled);
            proof {
                assert(old(self).running().subrange(0, i + 1) =~= old(self).running().subrange(0, i as int).push(id));
            }
            i = i + 1;
        }
        self.running_tasks.clear();
        proof {
            assert(old(self).running().subrange(0, i as int) =~= old(self).running());
            assert(self.running() =~= Seq::<i32>::empty());
            if old(self).wf() {
                Self::lemma_names_backed(*old(self), *self);
            }
        }
    }

    /// The same as [`Scheduler::stop`], for teardown paths.
    pub fn cleanup(&mut self)
        ensures
            old(self).wf() ==> final(self).wf(),
            final(self).counter() == old(self).counter(),
            final(self).task_map() == old(self).task_map(),
            final(self).callbacks() == old(self).callbacks(),
            final(self).names() == old(self).names(),
            final(self).units() == Seq::<(i32, JoinHandle<()>)>::empty(),
            final(self).cancelled() == old(self).cancelled() + old(self).running(),
    {
        self.stop();
    }

    /// Every name in the table of `b` has an entry in its list, given that
    /// `a` holds the invariant and `b` has the same table and list.
    proof fn lemma_names_backed(a: Self, b: Self)
        requires
            a.wf(),
            b.names@ == a.names@,
            b.name_to_id@ == a.name_to_id@,
        ensures
            forall|n: Seq<char>| #[trigger] b.names@.contains_key(n) ==> exists|i: int|
                0 <= i < b.name_to_id@.len() && #[trigger] b.name_to_id@[i].0@ == n,
    {
        assert forall|n: Seq<char>| #[trigger] b.names@.contains_key(n) implies exists|i: int|
            0 <= i < b.name_to_id@.len() && #[trigger] b.name_to_id@[i].0@ == n by {
            assert(a.names@.contains_key(n));
            let i = choose|i: int| 0 <= i < a.name_to_id@.len() && #[trigger] a.name_to_id@[i].0@ == n;
            assert(b.name_to_id@[i].0@ == n);
        }
    }

    /// The position of `name` in the name table, if it is there.
    fn find_name(&self, name: &String) -> (r: Option<usize>)
        requires
            self.wf(),
        ensures
            match r {
                Some(i) => i < self.name_to_id@.len() && self.name_to_id@[i as int].0@ == name@,
                None => !self.names@.contains_key(name@),
            },
    {
        let mut i: usize = 0;
        while i < self.name_to_id.len()
            invariant
                self.wf(),
                i <= self.name_to_id@.len(),
                forall|j: int| 0 <= j < i ==> self.name_to_id@[j].0@ != name@,
            decreases self.name_to_id@.len() - i,
        {
            if self.name_to_id[i].0 == *name {
                return Some(i);
            }
            i = i + 1;
        }
        None
    }
}

/// Some task registered in `tasks` under an id from 1 to `upto` is named `n`.
pub open spec fn named_within(tasks: Map<i32, Task>, upto: int, n: Seq<char>) -> bool {
    exists|id: i32| 1 <= id <= upto && #[trigger] tasks.contains_key(id) && tasks[id].name@ == n
}

/// Every name in the listing of `tasks` up to `upto` is the name of a task
/// registered there under an id from 1 to `upto`.
pub proof fn lemma_listed_names(tasks: Map<i32, Task>, upto: int)
    requires
        upto <= i32::MAX,
    ensures
        forall|i: int| 0 <= i < listed(tasks, upto).len()
            ==> named_within(tasks, upto, #[trigger] listed(tasks, upto)[i]),
    decreases upto,
{
    if upto > 0 {
        lemma_listed_names(tasks, upto - 1);
        let prev = listed(tasks, upto - 1);
        let l = listed(tasks, upto);
        assert forall|i: int| 0 <= i < l.len() implies named_within(tasks, upto, #[trigger] l[i]) by {
            if i < prev.len() {
                assert(named_within(tasks, upto - 1, prev[i]));
                let id = choose|id: i32| 1 <= id <= upto - 1 && #[trigger] tasks.contains_key(id)
                    && tasks[id].name@ == prev[i];
                if tasks.contains_key(upto as i32) {
                    assert(l == prev.push(tasks[upto as i32].name@));
                } else {
                    assert(l == prev);
                }
                assert(l[i] == prev[i]);
                assert(tasks.contains_key(id) && tasks[id].name@ == l[i]);
            } else {
                let id = upto as i32;
                assert(tasks.contains_key(id));
                assert(l == prev.push(tasks[id].name@));
                assert(tasks.contains_key(id) && tasks[id].name@ == l[i]);
            }
        }
    }
}

/// What the registry's invariant guarantees: the counter is not negative;
/// every task lies under its own id, from 1 to the counter; each stored
/// callback belongs to a registered task and each one-shot task still has
/// its callback; each name points at a registered task of that name; and the
/// tracked units hold distinct ids from 1 to the counter, none of which has
/// a stored callback.
pub proof fn lemma_wf_facts<C>(s: Scheduler<C>)
    requires
        s.wf(),
    ensures
        s.counter() >= 0,
        forall|id: i32| #[trigger] s.task_map().contains_key(id)
            ==> 1 <= id <= s.counter() && s.task_map()[id].id == id,
        forall|id: i32| #[trigger] s.callbacks().contains_key(id) ==> s.task_map().contains_key(id),
        forall|id: i32| #[trigger] s.task_map().contains_key(id)
            && s.task_map()[id].recurrence.is_once() ==> s.callbacks().contains_key(id),
        forall|n: Seq<char>| #[trigger] s.names().contains_key(n)
            ==> s.task_map().contains_key(s.names()[n]) && s.task_map()[s.names()[n]].name@ == n,
        s.running().no_duplicates(),
        forall|j: int| 0 <= j < s.running().len() ==> 1 <= #[trigger] s.running()[j] <= s.counter()
            && !s.callbacks().contains_key(s.running()[j]),
{
    assert forall|j: int| 0 <= j < s.running().len() implies 1 <= #[trigger] s.running()[j] <= s.counter()
        && !s.callbacks().contains_key(s.running()[j]) by {
        assert(s.running()[j] == s.running_tasks@[j].0);
    }
}

/// Each add hands out the id after the last one, starting from 1, and that
/// id is above every id already in use (registered, holding a callback,
/// named, or tracked as running), so no id is handed out twice.
pub proof fn lemma_ids_increase<C>(
    before: Scheduler<C>,
    after: Scheduler<C>,
    name: Seq<char>,
    cb: C,
    delay: Duration,
    recurrence: RecurrenceType,
)
    requires
        before.wf(),
        added(before, after, name, cb, delay, recurrence),
    ensures
        after.task_map()[after.counter() as i32].id == after.counter(),
        after.counter() == before.counter() + 1,
        after.counter() >= 1,
        before.counter() == 0 ==> after.counter() == 1,
        forall|id: i32| #[trigger] before.task_map().contains_key(id) ==> id < after.counter(),
        forall|id: i32| #[trigger] before.callbacks().contains_key(id) ==> id < after.counter(),
        forall|n: Seq<char>| #[trigger] before.names().contains_key(n) ==> before.names()[n] < after.counter(),
        forall|j: int| 0 <= j < before.running().len() ==> #[trigger] before.running()[j] < after.counter(),
{
    lemma_wf_facts(before);
    assert forall|id: i32| #[trigger] before.callbacks().contains_key(id) implies id < after.counter() by {
        assert(before.task_map().contains_key(id));
    }
    assert forall|n: Seq<char>| #[trigger] before.names().contains_key(n) implies before.names()[n] < after.counter() by {
        assert(before.task_map().contains_key(before.names()[n]));
    }
}

/// Some recurring task registered in `tasks` is named `n`.
pub open spec fn recurring_named(tasks: Map<i32, Task>, n: Seq<char>) -> bool {
    exists|id: i32| #[trigger] tasks.contains_key(id) && !tasks[id].recurrence.is_once()
        && tasks[id].name@ == n
}

/// After `execute`, no task that was one-shot is registered any more, and
/// every name that `list_tasks` reports belongs to a recurring task.
pub proof fn lemma_once_tasks_leave<C>(before: Scheduler<C>, after: Scheduler<C>, r: Seq<Dispatch<C>>)
    requires
        before.wf(),
        after.wf(),
        dispatched(before, after, r),
    ensures
        forall|id: i32| #[trigger] before.task_map().contains_key(id)
            && before.task_map()[id].recurrence.is_once() ==> !after.task_map().contains_key(id),
        forall|i: int| 0 <= i < listed(after.task_map(), after.counter()).len()
            ==> recurring_named(after.task_map(), #[trigger] listed(after.task_map(), after.counter())[i]),
{
    lemma_listed_names(after.task_map(), after.counter());
    let l = listed(after.task_map(), after.counter());
    assert forall|id: i32| #[trigger] before.task_map().contains_key(id)
        && before.task_map()[id].recurrence.is_once() implies !after.task_map().contains_key(id) by {}
    assert forall|i: int| 0 <= i < l.len() implies recurring_named(after.task_map(), #[trigger] l[i]) by {
        assert(named_within(after.task_map(), after.counter(), l[i]));
        let id = choose|id: i32| 1 <= id <= after.counter() && #[trigger] after.task_map().contains_key(id)
            && after.task_map()[id].name@ == l[i];
        assert(after.task_map()[id] == before.task_map()[id]);
        assert(after.task_map().contains_key(id)
            && !after.task_map()[id].recurrence.is_once()
            && after.task_map()[id].name@ == l[i]);
    }
}

} // verus!
