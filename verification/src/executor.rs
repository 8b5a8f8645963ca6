//! Where guinea's own background work is ordered under test.
//!
//! A [`Seeded`] executor holds what is ready to run: tasks that were woken,
//! which may go in any order, and jobs for the UI thread, which go first in,
//! first out. Which of them goes next is picked by a generator started from a
//! seed, so the same seed picks the same order every time. The tasks
//! themselves - what polling one does - are run by whoever drives the
//! executor; here is what decides.

use std::collections::VecDeque;

use vstd::prelude::*;

verus! {

/// The longest a [`random_delay`] waits, in turns.
pub const LONGEST_DELAY: usize = 10;

/// What a task answers when it is polled.
#[derive(Clone, Copy, Debug, PartialEq, Eq, Structural)]
pub enum Poll {
    Ready,
    /// Not yet; the task has asked to be woken, so it is ready again at once.
    Pending,
}

/// One piece of work the executor picked.
#[derive(Debug, PartialEq, Eq)]
pub enum Work<J> {
    /// Poll the task with this id.
    Poll(u64),
    /// Run this job on the UI thread.
    Ui(J),
}

/// One step of SplitMix64 from `state`: the next state and the number drawn.
pub open spec fn mix(state: u64) -> (u64, u64) {
    let z0 = vstd::wrapping::u64_specs::wrapping_add(state, 0x9E37_79B9_7F4A_7C15u64);
    let z1 = vstd::wrapping::u64_specs::wrapping_mul(z0 ^ (z0 >> 30u64), 0xBF58_476D_1CE4_E5B9u64);
    let z2 = vstd::wrapping::u64_specs::wrapping_mul(z1 ^ (z1 >> 27u64), 0x94D0_49BB_1331_11EBu64);
    (z0, z2 ^ (z2 >> 31u64))
}

/// A draw moves the generator on by SplitMix64's step: the state after it
/// is the state before plus the golden gamma `0x9E3779B97F4A7C15`, wrapping
/// at 2^64 - never the state it left, so no draw repeats the state of the
/// one before.
pub proof fn law_a_draw_advances_by_the_golden_gamma(state: u64)
    ensures
        mix(state).0 as int == (state as int + 0x9E37_79B9_7F4A_7C15int) % 0x1_0000_0000_0000_0000int,
        mix(state).0 != state,
{
}

/// From seed 0 the generator draws SplitMix64's own sequence:
/// `0xE220A8397B1DCDAF`, then `0x6E789E6AA1B965F4`.
pub proof fn law_seed_zero_draws_the_splitmix_sequence()
    ensures
        mix(0).1 == 0xE220_A839_7B1D_CDAFu64,
        mix(mix(0).0).1 == 0x6E78_9E6A_A1B9_65F4u64,
{
    assert(mix(0).1 == 0xE220_A839_7B1D_CDAFu64) by (bit_vector);
    assert(mix(mix(0).0).1 == 0x6E78_9E6A_A1B9_65F4u64) by (bit_vector);
}

/// The executor's state as its contracts speak of it.
pub struct SeededView<J> {
    pub seed: u64,
    pub state: u64,
    /// Tasks woken and ready to be polled, in no particular order.
    pub polls: Seq<u64>,
    /// Jobs for the UI thread, oldest first.
    pub ui: Seq<J>,
    /// Tasks that are neither finished nor being polled.
    pub tasks: Set<u64>,
    /// The id the next spawned task gets.
    pub next: u64,
}

/// One thread, one order: which of the ready tasks or the UI queue goes next
/// is picked by a generator started from `seed`.
pub struct Seeded<J> {
    seed: u64,
    state: u64,
    polls: Vec<u64>,
    ui: VecDeque<J>,
    tasks: Vec<u64>,
    next: u64,
}

impl<J> View for Seeded<J> {
    type V = SeededView<J>;

    open spec fn view(&self) -> SeededView<J> {
        self.seen()
    }
}

impl<J> Seeded<J> {
    pub closed spec fn seen(&self) -> SeededView<J> {
        SeededView {
            seed: self.seed,
            state: self.state,
            polls: self.polls@,
            ui: self.ui@,
            tasks: self.tasks@.to_set(),
            next: self.next,
        }
    }

    /// Every live task has an id already handed out, and is listed once.
    pub closed spec fn wf(&self) -> bool {
        &&& forall|i: int| 0 <= i < self.tasks.len() ==> #[trigger] self.tasks@[i] < self.next
        &&& self.tasks@.no_duplicates()
    }

    pub closed spec fn has_room(&self) -> bool {
        self.next < u64::MAX
    }

    proof fn lemma_view(&self)
        ensures
            self@.polls == self.polls@,
            self@.ui == self.ui@,
            self@.tasks == self.tasks@.to_set(),
            self@.state == self.state,
            self@.next == self.next,
            self@.seed == self.seed,
    {
    }

    /// An executor with nothing to run, its generator started from `seed`.
    pub fn new(seed: u64) -> (r: Seeded<J>)
        ensures
            r.wf(),
            r.has_room(),
            r@.seed == seed,
            r@.state == seed,
            r@.polls.len() == 0,
            r@.ui.len() == 0,
            r@.tasks.is_empty(),
    {
        let r = Seeded { seed, state: seed, polls: Vec::new(), ui: VecDeque::new(), tasks: Vec::new(), next: 1 };
        proof {
            assert(r@.tasks =~= Set::<u64>::empty());
        }
        r
    }

    pub fn seed(&self) -> (r: u64)
        ensures
            r == self@.seed,
    {
        self.seed
    }

    /// A number below `bound`, the generator's next: SplitMix64, a few lines
    /// and a good enough spread for picking among a handful of tasks.
    pub fn below(&mut self, bound: usize) -> (r: usize)
        requires
            bound > 0,
        ensures
            final(self)@ == (SeededView { state: mix(old(self)@.state).0, ..old(self)@ }),
            final(self).wf() == old(self).wf(),
            final(self).has_room() == old(self).has_room(),
            r as int == mix(old(self)@.state).1 as int % bound as int,
            r < bound,
    {
        let mut z = self.state.wrapping_add(0x9E37_79B9_7F4A_7C15);
        self.state = z;
        z = (z ^ (z >> 30)).wrapping_mul(0xBF58_476D_1CE4_E5B9);
        z = (z ^ (z >> 27)).wrapping_mul(0x94D0_49BB_1331_11EB);
        z = z ^ (z >> 31);
        let wide = bound as u64;
        let r = (z % wide) as usize;
        proof {
            assert(self@ =~= (SeededView { state: mix(old(self)@.state).0, ..old(self)@ }));
        }
        r
    }

    /// Whether another task can be spawned: ids are not reused, and they run
    /// out after `u64::MAX - 1` tasks.
    pub fn can_spawn(&self) -> (r: bool)
        ensures
            r == self.has_room(),
    {
        self.next < u64::MAX
    }

    /// A new task, ready to be polled for the first time.
    pub fn spawn(&mut self) -> (id: u64)
        requires
            old(self).wf(),
            old(self).has_room(),
        ensures
            final(self).wf(),
            id == old(self)@.next,
            !old(self)@.tasks.contains(id),
            final(self)@ == (SeededView {
                polls: old(self)@.polls.push(id),
                tasks: old(self)@.tasks.insert(id),
                next: (id + 1) as u64,
                ..old(self)@
            }),
    {
        let id = self.next;
        proof {
            if self@.tasks.contains(id) {
                let i = choose|i: int| 0 <= i < self.tasks.len() && self.tasks@[i] == id;
                assert(self.tasks@[i] < self.next);
            }
            lemma_push_to_set(self.tasks@, id);
        }
        self.next = self.next + 1;
        self.tasks.push(id);
        self.polls.push(id);
        proof {
            assert(self@ =~= (SeededView {
                polls: old(self)@.polls.push(id),
                tasks: old(self)@.tasks.insert(id),
                next: (id + 1) as u64,
                ..old(self)@
            }));
            assert(self.tasks@.no_duplicates()) by {
                assert forall|i: int, j: int| 0 <= i < self.tasks.len() && 0 <= j < self.tasks.len() && i != j implies self.tasks@[i] != self.tasks@[j] by {
                    if j == self.tasks.len() - 1 {
                        assert(old(self).tasks@[i] < old(self).next);
                    } else if i == self.tasks.len() - 1 {
                        assert(old(self).tasks@[j] < old(self).next);
                    } else {
                        assert(old(self).tasks@[i] != old(self).tasks@[j]);
                    }
                }
            }
        }
        id
    }

    /// The task `id` asked to be woken: it is ready to be polled again.
    pub fn wake(&mut self, id: u64)
        ensures
            final(self)@ == (SeededView { polls: old(self)@.polls.push(id), ..old(self)@ }),
            final(self).wf() == old(self).wf(),
            final(self).has_room() == old(self).has_room(),
    {
        self.polls.push(id);
        proof {
            assert(self@ =~= (SeededView { polls: old(self)@.polls.push(id), ..old(self)@ }));
        }
    }

    /// Queues `job` for the UI thread, behind every job queued before it.
    pub fn post(&mut self, job: J)
        ensures
            final(self)@ == (SeededView { ui: old(self)@.ui.push(job), ..old(self)@ }),
            final(self).wf() == old(self).wf(),
            final(self).has_room() == old(self).has_room(),
    {
        self.ui.push_back(job);
        proof {
            assert(self@ =~= (SeededView { ui: old(self)@.ui.push(job), ..old(self)@ }));
        }
    }

    /// One of the ready tasks, or the job at the head of the UI queue - which
    /// of those, the seed picks; `None` when nothing is ready.
    ///
    /// The UI queue only ever gives up its oldest job, so jobs posted from
    /// one place run in the order they were posted, whatever the seed.
    pub fn take(&mut self) -> (r: Option<Work<J>>)
        requires
            old(self)@.polls.len() < usize::MAX,
        ensures
            final(self).wf() == old(self).wf(),
            final(self).has_room() == old(self).has_room(),
            final(self)@.tasks == old(self)@.tasks,
            final(self)@.next == old(self)@.next,
            final(self)@.seed == old(self)@.seed,
            old(self)@.polls.len() + (if old(self)@.ui.len() > 0 { 1int } else { 0 }) == 0 ==> {
                &&& r is None
                &&& final(self)@ == old(self)@
            },
            old(self)@.polls.len() + (if old(self)@.ui.len() > 0 { 1int } else { 0 }) > 0 ==> {
                let choices = old(self)@.polls.len() + (if old(self)@.ui.len() > 0 { 1int } else { 0 });
                let at = mix(old(self)@.state).1 as int % choices;
                &&& final(self)@.state == mix(old(self)@.state).0
                &&& if at == old(self)@.polls.len() {
                    &&& r == Some(Work::Ui(old(self)@.ui[0]))
                    &&& final(self)@.ui == old(self)@.ui.drop_first()
                    &&& final(self)@.polls == old(self)@.polls
                } else {
                    &&& r == Some(Work::<J>::Poll(old(self)@.polls[at]))
                    &&& final(self)@.polls == old(self)@.polls.update(at, old(self)@.polls.last()).drop_last()
                    &&& final(self)@.ui == old(self)@.ui
                }
            },
    {
        let waiting = self.polls.len();
        let queued: usize = if self.ui.len() > 0 { 1 } else { 0 };
        if waiting == 0 && queued == 0 {
            return None;
        }
        let choices = waiting + queued;
        let at = self.below(choices);
        if at == waiting {
            let job = self.ui.pop_front();
            match job {
                Some(job) => {
                    proof {
                        assert(self.ui@ =~= old(self).ui@.drop_first());
                    }
                    Some(Work::Ui(job))
                },
                None => None,
            }
        } else {
            Some(Work::Poll(self.polls.swap_remove(at)))
        }
    }

    /// Starts polling the task `id`: `true` if it is still live, and it stops
    /// counting as live until it is parked again.
    pub fn claim(&mut self, id: u64) -> (r: bool)
        requires
            old(self).wf(),
        ensures
            final(self).wf(),
            final(self).has_room() == old(self).has_room(),
            r == old(self)@.tasks.contains(id),
            final(self)@ == (SeededView { tasks: old(self)@.tasks.remove(id), ..old(self)@ }),
    {
        let mut k: usize = 0;
        while k < self.tasks.len()
            invariant
                self.wf(),
                self == old(self),
                k <= self.tasks.len(),
                forall|i: int| 0 <= i < k ==> self.tasks@[i] != id,
            decreases self.tasks.len() - k,
        {
            if self.tasks[k] == id {
                let ghost before = self.tasks@;
                self.tasks.swap_remove(k);
                proof {
                    assert forall|x: u64| #[trigger] self.tasks@.contains(x) <==> (before.contains(x) && x != id) by {
                        if self.tasks@.contains(x) {
                            let w = choose|w: int| 0 <= w < self.tasks.len() && self.tasks@[w] == x;
                            if w == k {
                                assert(x == before.last());
                                assert(before[before.len() - 1] == x);
                                assert(before.len() - 1 != k);
                            } else {
                                assert(before[w] == x);
                                assert(w != k);
                            }
                        }
                        if before.contains(x) && x != id {
                            let w = choose|w: int| 0 <= w < before.len() && before[w] == x;
                            if w == before.len() - 1 {
                                if k < self.tasks.len() {
                                    assert(self.tasks@[k as int] == x);
                                } else {
                                    assert(w == k);
                                }
                            } else {
                                assert(w != k);
                                assert(self.tasks@[w] == x);
                            }
                        }
                    }
                    assert(self@.tasks =~= old(self)@.tasks.remove(id));
                    assert(self@ =~= (SeededView { tasks: old(self)@.tasks.remove(id), ..old(self)@ }));
                    assert forall|i: int, j: int| 0 <= i < self.tasks.len() && 0 <= j < self.tasks.len() && i != j implies self.tasks@[i] != self.tasks@[j] by {
                        let bi = if i == k { before.len() - 1 } else { i };
                        let bj = if j == k { before.len() - 1 } else { j };
                        assert(before[bi] == self.tasks@[i]);
                        assert(before[bj] == self.tasks@[j]);
                    }
                    assert forall|i: int| 0 <= i < self.tasks.len() implies #[trigger] self.tasks@[i] < self.next by {
                        let bi = if i == k { before.len() - 1 } else { i };
                        assert(before[bi] == self.tasks@[i]);
                    }
                }
                return true;
            }
            k = k + 1;
        }
        proof {
            assert(!self@.tasks.contains(id));
            assert(self@.tasks =~= old(self)@.tasks.remove(id));
            assert(self@ =~= (SeededView { tasks: old(self)@.tasks.remove(id), ..old(self)@ }));
        }
        false
    }

    /// The task `id`, polled, is not finished: it is live again.
    pub fn park(&mut self, id: u64)
        requires
            old(self).wf(),
            id < old(self)@.next,
            !old(self)@.tasks.contains(id),
        ensures
            final(self).wf(),
            final(self).has_room() == old(self).has_room(),
            final(self)@ == (SeededView { tasks: old(self)@.tasks.insert(id), ..old(self)@ }),
    {
        let ghost before = self.tasks@;
        self.tasks.push(id);
        proof {
            lemma_push_to_set(before, id);
            assert(self@ =~= (SeededView { tasks: old(self)@.tasks.insert(id), ..old(self)@ }));
            assert forall|i: int, j: int| 0 <= i < self.tasks.len() && 0 <= j < self.tasks.len() && i != j implies self.tasks@[i] != self.tasks@[j] by {
                if j == self.tasks.len() - 1 {
                    assert(before.contains(before[i]));
                } else if i == self.tasks.len() - 1 {
                    assert(before.contains(before[j]));
                }
            }
        }
    }

    /// Tasks that are neither finished nor ready - waiting on something that
    /// has not woken them.
    pub fn stuck(&self) -> (r: usize)
        requires
            self.wf(),
        ensures
            r == self@.tasks.len(),
    {
        proof {
            self.tasks@.unique_seq_to_set();
        }
        self.tasks.len()
    }

    /// Whether nothing is ready: no task woken, no job queued.
    pub fn is_idle(&self) -> (r: bool)
        ensures
            r == (self@.polls.len() == 0 && self@.ui.len() == 0),
    {
        self.polls.len() == 0 && self.ui.len() == 0
    }
}

proof fn lemma_push_to_set(ids: Seq<u64>, id: u64)
    ensures
        ids.push(id).to_set() == ids.to_set().insert(id),
{
    assert forall|x: u64| #[trigger] ids.push(id).to_set().contains(x) == ids.to_set().insert(id).contains(x) by {
        if ids.push(id).contains(x) && x != id {
            let w = choose|w: int| 0 <= w < ids.len() + 1 && ids.push(id)[w] == x;
            assert(ids[w] == x);
        }
        if ids.contains(x) {
            let w = choose|w: int| 0 <= w < ids.len() && ids[w] == x;
            assert(ids.push(id)[w] == x);
        }
        if x == id {
            assert(ids.push(id)[ids.len() as int] == x);
        }
    }
    assert(ids.push(id).to_set() =~= ids.to_set().insert(id));
}

/// Gives way once: the first poll asks to be woken and says it is not done,
/// so whatever else is ready runs before the task resumes.
pub struct YieldNow {
    yielded: bool,
}

/// Gives way once.
pub fn yield_now() -> (r: YieldNow)
    ensures
        !r.has_yielded(),
{
    YieldNow { yielded: false }
}

impl YieldNow {
    pub closed spec fn has_yielded(&self) -> bool {
        self.yielded
    }

    /// `Pending` the first time, `Ready` every time after.
    pub fn poll(&mut self) -> (r: Poll)
        ensures
            r == (if old(self).has_yielded() { Poll::Ready } else { Poll::Pending }),
            final(self).has_yielded(),
    {
        if self.yielded {
            return Poll::Ready;
        }
        self.yielded = true;
        Poll::Pending
    }
}

/// Gives way as many times as the seed says, from none to [`LONGEST_DELAY`].
pub struct RandomDelay {
    left: Option<usize>,
}

/// Gives way a random number of times - as many as the executor's generator
/// says, or once when there is no executor.
pub fn random_delay() -> (r: RandomDelay)
    ensures
        r.turns_left() is None,
{
    RandomDelay { left: None }
}

impl RandomDelay {
    /// The turns still to give way, once they have been drawn.
    pub closed spec fn turns_left(&self) -> Option<usize> {
        self.left
    }

    fn spend(&mut self, left: usize) -> (r: Poll)
        ensures
            r == (if left == 0 { Poll::Ready } else { Poll::Pending }),
            final(self).turns_left() == Some((if left == 0 { 0 } else { left - 1 }) as usize),
    {
        if left == 0 {
            self.left = Some(0);
            return Poll::Ready;
        }
        self.left = Some(left - 1);
        Poll::Pending
    }

    /// Polled where no executor is installed: one turn, then done.
    pub fn poll(&mut self) -> (r: Poll)
        ensures
            ({
                let turns = match old(self).turns_left() {
                    Some(left) => left as int,
                    None => 1,
                };
                &&& r == (if turns == 0 { Poll::Ready } else { Poll::Pending })
                &&& final(self).turns_left() == Some((if turns == 0 { 0 } else { turns - 1 }) as usize)
            }),
    {
        let left = match self.left {
            Some(left) => left,
            None => 1,
        };
        self.spend(left)
    }

    /// Polled under `executor`: the number of turns is drawn from its
    /// generator on the first poll, so a seed replays the delays along with
    /// the order.
    pub fn poll_in<J>(&mut self, executor: &mut Seeded<J>) -> (r: Poll)
        ensures
            ({
                let turns = match old(self).turns_left() {
                    Some(left) => left as int,
                    None => mix(old(executor)@.state).1 as int % (LONGEST_DELAY + 1) as int,
                };
                &&& r == (if turns == 0 { Poll::Ready } else { Poll::Pending })
                &&& final(self).turns_left() == Some((if turns == 0 { 0 } else { turns - 1 }) as usize)
            }),
            old(self).turns_left() is Some ==> final(executor)@ == old(executor)@,
            old(self).turns_left() is None ==> final(executor)@ == (SeededView { state: mix(old(executor)@.state).0, ..old(executor)@ }),
    {
        let left = match self.left {
            Some(left) => left,
            None => executor.below(LONGEST_DELAY + 1),
        };
        self.spend(left)
    }
}

} // verus!
