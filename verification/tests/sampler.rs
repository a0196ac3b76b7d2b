use rand::Rng;
use stract::sampler::{
    order_key, sample_by_priority, weighted_sample, PrioritySource, Recorded, Reservoir,
};

/// Draws priorities from the thread's random number generator.
struct RandomPriorities;

impl PrioritySource for RandomPriorities {
    fn draw(&mut self, weight: u64) -> u64 {
        let mut rng = rand::thread_rng();
        let priority = -(rng.gen::<f64>().abs() + f64::EPSILON).ln() / (weight as f64 + 1.0);
        order_key(priority.to_bits())
    }
}

/// Hands out the priorities of a list, one after the other.
struct Scripted {
    priorities: Vec<u64>,
    next: usize,
    asked: Vec<u64>,
}

impl PrioritySource for Scripted {
    fn draw(&mut self, weight: u64) -> u64 {
        let priority = self.priorities[self.next];
        self.next += 1;
        self.asked.push(weight);
        priority
    }
}

#[test]
fn sampling() {
    let mut source = Recorded::new(RandomPriorities);

    let items: Vec<(usize, f64)> = vec![(0, 1.0), (1, 2.0), (2, 3.0), (3, 4.0)];
    let sampled = weighted_sample(
        items.iter().map(|(i, w)| (i, *w as u64)).collect(),
        10,
        &mut source,
    );
    assert_eq!(sampled.len(), items.len());

    let items: Vec<(usize, f64)> = vec![(0, 1.0), (1, 2.0), (2, 3.0), (3, 4.0)];
    let sampled = weighted_sample(
        items.iter().map(|(i, w)| (i, *w as u64)).collect(),
        1,
        &mut source,
    );
    assert_eq!(sampled.len(), 1);

    let items: Vec<(usize, f64)> = vec![(0, 1.0), (1, 2.0), (2, 3.0), (3, 4.0)];
    let sampled = weighted_sample(
        items.iter().map(|(i, w)| (i, *w as u64)).collect(),
        0,
        &mut source,
    );
    assert_eq!(sampled.len(), 0);

    let items: Vec<(usize, f64)> = vec![(0, 1000000000.0), (1, 2.0)];
    let sampled = weighted_sample(
        items.iter().map(|(i, w)| (i, *w as u64)).collect(),
        1,
        &mut source,
    );
    assert_eq!(sampled.len(), 1);
    assert_eq!(*sampled[0], 0);
}

#[test]
fn order_key_orders_as_numbers_do() {
    let numbers = [
        -f64::NAN,
        f64::NEG_INFINITY,
        -2.5,
        -1e-300,
        -0.0,
        0.0,
        1e-300,
        0.5,
        1.0,
        3.0,
        f64::INFINITY,
        f64::NAN,
    ];
    for a in numbers {
        for b in numbers {
            assert_eq!(
                order_key(a.to_bits()) < order_key(b.to_bits()),
                a.total_cmp(&b) == std::cmp::Ordering::Less
            );
        }
    }
    assert_eq!(order_key(0), 0x8000_0000_0000_0000);
    assert_eq!(order_key(0x8000_0000_0000_0000), 0x7fff_ffff_ffff_ffff);
    assert_eq!(order_key(u64::MAX), 0);
    assert_eq!(order_key(1.0f64.to_bits()), 0xbff0_0000_0000_0000);
}

#[test]
fn sample_by_priority_keeps_smallest() {
    let items = vec![("a", 50), ("b", 10), ("c", 40), ("d", 20), ("e", 30)];
    let mut sampled = sample_by_priority(items, 3);
    sampled.sort();
    assert_eq!(sampled, vec!["b", "d", "e"]);
}

#[test]
fn sample_by_priority_short_stream_returns_all() {
    let items = vec![(1u8, 9), (2u8, 9), (2u8, 1)];
    let mut sampled = sample_by_priority(items, 10);
    sampled.sort();
    assert_eq!(sampled, vec![1, 2, 2]);
}

#[test]
fn sample_by_priority_zero_returns_none() {
    let items = vec![("a", 1), ("b", 2)];
    assert_eq!(sample_by_priority(items, 0).len(), 0);
    let nothing: Vec<(u8, u64)> = Vec::new();
    assert_eq!(sample_by_priority(nothing, 3).len(), 0);
}

#[test]
fn sample_by_priority_equal_priority_keeps_earlier() {
    // an item does not take the place of one with the same priority
    let items = vec![("a", 5), ("b", 5), ("c", 5)];
    let mut sampled = sample_by_priority(items, 2);
    sampled.sort();
    assert_eq!(sampled, vec!["a", "b"]);
}

#[test]
fn sample_by_priority_many_items() {
    let mut items: Vec<(u64, u64)> = Vec::new();
    let mut n: u64 = 0;
    while n < 1000 {
        items.push((n, (n * 7919) % 1009));
        n += 1;
    }
    let mut expected: Vec<(u64, u64)> = items.iter().map(|(i, p)| (*p, *i)).collect();
    expected.sort();
    let mut expected: Vec<u64> = expected.iter().take(25).map(|(_, i)| *i).collect();
    expected.sort();
    let mut sampled = sample_by_priority(items, 25);
    sampled.sort();
    assert_eq!(sampled, expected);
}

#[test]
fn weighted_sample_uses_drawn_priorities() {
    let mut source = Recorded::new(Scripted { priorities: vec![30, 10, 20], next: 0, asked: Vec::new() });
    let items = vec![("a", 7), ("b", 8), ("c", 9)];
    let mut sampled = weighted_sample(items, 2, &mut source);
    sampled.sort();
    assert_eq!(sampled, vec!["b", "c"]);
    let source = source.into_inner();
    assert_eq!(source.next, 3);
    // one draw for each item, in order, for the item's weight
    assert_eq!(source.asked, vec![7, 8, 9]);
}

#[test]
fn reservoir_streams() {
    let mut reservoir: Reservoir<&str> = Reservoir::new(2);
    assert_eq!(reservoir.len(), 0);
    reservoir.offer("a", 9);
    reservoir.offer("b", 3);
    assert_eq!(reservoir.len(), 2);
    reservoir.offer("c", 5);
    reservoir.offer("d", 7);
    assert_eq!(reservoir.len(), 2);
    let mut items = reservoir.into_items();
    items.sort();
    assert_eq!(items, vec!["b", "c"]);
}

#[test]
fn reservoir_keeps_held_item_on_equal_priority() {
    let mut reservoir: Reservoir<&str> = Reservoir::new(1);
    reservoir.offer("first", 5);
    reservoir.offer("second", 5);
    reservoir.offer("third", 6);
    assert_eq!(reservoir.into_items(), vec!["first"]);

    let mut reservoir: Reservoir<&str> = Reservoir::new(1);
    reservoir.offer("first", 5);
    reservoir.offer("second", 4);
    assert_eq!(reservoir.into_items(), vec!["second"]);

    let mut reservoir: Reservoir<&str> = Reservoir::new(0);
    reservoir.offer("first", 5);
    assert_eq!(reservoir.into_items().len(), 0);
}
