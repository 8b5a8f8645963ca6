use std::collections::{HashMap, HashSet};

use guinea::executor::{random_delay, yield_now, Poll, Seeded, Work, LONGEST_DELAY};

fn order(seed: u64) -> Vec<&'static str> {
    let mut executor: Seeded<Box<dyn FnOnce()>> = Seeded::new(seed);
    let mut tasks = HashMap::new();

    for name in ["a", "b", "c"] {
        let id = executor.spawn();
        tasks.insert(id, (name, yield_now()));
    }

    let mut seen = Vec::new();
    while let Some(work) = executor.take() {
        match work {
            Work::Poll(id) => {
                if !executor.claim(id) {
                    continue;
                }
                let (name, yielding) = tasks.get_mut(&id).expect("a spawned task");
                match yielding.poll() {
                    Poll::Pending => {
                        executor.wake(id);
                        executor.park(id);
                    }
                    Poll::Ready => seen.push(*name),
                }
            }
            Work::Ui(job) => job(),
        }
    }
    seen
}

#[test]
fn one_seed_is_one_order() {
    for seed in 0..16 {
        assert_eq!(order(seed), order(seed), "seed {seed}");
    }
}

#[test]
fn the_seeds_between_them_reach_other_orders() {
    let orders: HashSet<Vec<&str>> = (0..64).map(order).collect();
    assert!(orders.len() > 1, "every seed ran the tasks in one order: {orders:?}");
}

#[test]
fn posts_to_the_ui_thread_keep_their_order_in_every_seed() {
    let mut interleavings = HashSet::new();

    for seed in 0..64 {
        let mut executor: Seeded<&'static str> = Seeded::new(seed);
        for post in ["first", "second", "third"] {
            executor.post(post);
        }
        let task = executor.spawn();

        let mut seen = Vec::new();
        while let Some(work) = executor.take() {
            match work {
                Work::Ui(post) => seen.push(post),
                Work::Poll(id) => {
                    assert_eq!(id, task);
                    assert!(executor.claim(id));
                    seen.push("task");
                }
            }
        }

        let posts: Vec<&str> = seen.iter().copied().filter(|name| *name != "task").collect();
        assert_eq!(posts, ["first", "second", "third"], "seed {seed}");
        interleavings.insert(seen);
    }

    assert!(interleavings.len() > 1, "the task always ran in one place: {interleavings:?}");
}

#[test]
fn a_task_waiting_on_nothing_is_counted_as_stuck() {
    let mut executor: Seeded<()> = Seeded::new(1);
    let id = executor.spawn();
    match executor.take() {
        Some(Work::Poll(polled)) => {
            assert_eq!(polled, id);
            assert!(executor.claim(id));
            executor.park(id);
        }
        _ => panic!("the task was ready"),
    }
    assert!(executor.take().is_none());
    assert_eq!(executor.stuck(), 1);
}

#[test]
fn the_generator_is_splitmix64() {
    let mut executor: Seeded<()> = Seeded::new(0);
    assert_eq!(executor.below(usize::MAX), (0xE220A8397B1DCDAFu64 % usize::MAX as u64) as usize);
    assert_eq!(executor.seed(), 0);
}

#[test]
fn a_random_delay_gives_way_as_often_as_the_seed_says() {
    let mut executor: Seeded<()> = Seeded::new(5);
    let mut expected = Seeded::<()>::new(5);
    let turns = expected.below(LONGEST_DELAY + 1);

    let mut delay = random_delay();
    let mut pending = 0;
    while delay.poll_in(&mut executor) == Poll::Pending {
        pending += 1;
    }
    assert_eq!(pending, turns);

    let mut alone = random_delay();
    assert_eq!(alone.poll(), Poll::Pending);
    assert_eq!(alone.poll(), Poll::Ready);
}

#[test]
fn yielding_gives_way_once() {
    let mut yielding = yield_now();
    assert_eq!(yielding.poll(), Poll::Pending);
    assert_eq!(yielding.poll(), Poll::Ready);
    assert_eq!(yielding.poll(), Poll::Ready);
}
