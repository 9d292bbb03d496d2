use qdb::clock_replacer::ClockReplacer;
use qdb::lru_replacer::LRUReplacer;
use qdb::replacer::Replacer;

/// A small generator of numbers that look random, the same on every run.
struct Numbers(u64);

impl Numbers {
    fn next(&mut self, below: usize) -> usize {
        self.0 = self.0.wrapping_mul(6364136223846793005).wrapping_add(1442695040888963407);
        ((self.0 >> 33) as usize) % below
    }
}

/// The clock, written down as plainly as can be.
struct PlainClock {
    pinned: Vec<bool>,
    used: Vec<bool>,
    hand: usize,
}

impl PlainClock {
    fn new(n: usize) -> Self {
        PlainClock { pinned: vec![false; n], used: vec![false; n], hand: 0 }
    }

    fn pick_victim(&mut self) -> Option<usize> {
        if self.pinned.iter().all(|p| *p) {
            return None;
        }
        while self.pinned[self.hand] || self.used[self.hand] {
            self.used[self.hand] = false;
            self.hand = (self.hand + 1) % self.pinned.len();
        }
        let h = self.hand;
        self.hand = (self.hand + 1) % self.pinned.len();
        Some(h)
    }

    fn len(&self) -> usize {
        self.pinned.iter().filter(|p| !**p).count()
    }
}

#[test]
fn clock_agrees_with_a_plain_clock() {
    let mut numbers = Numbers(7);
    for n in 1..9 {
        let mut r = ClockReplacer::new(n);
        let mut plain = PlainClock::new(n);
        for _ in 0..2000 {
            match numbers.next(3) {
                0 => assert_eq!(r.pick_victim(), plain.pick_victim()),
                1 => {
                    let f = numbers.next(n);
                    r.pin(f);
                    plain.pinned[f] = true;
                }
                _ => {
                    let f = numbers.next(n);
                    r.unpin(f);
                    plain.pinned[f] = false;
                    plain.used[f] = true;
                }
            }
            assert_eq!(r.len(), plain.len());
        }
    }
}

/// Least recently used, as a queue: the slot at the front has waited
/// longest.
#[test]
fn lru_agrees_with_a_queue() {
    let mut numbers = Numbers(13);
    for n in 1..9 {
        let mut r = LRUReplacer::new(n);
        let mut queue: Vec<usize> = (0..n).collect();
        for _ in 0..2000 {
            match numbers.next(3) {
                0 => {
                    let expected = queue.first().copied();
                    assert_eq!(r.pick_victim(), expected);
                    if let Some(v) = expected {
                        queue.remove(0);
                        queue.push(v);
                    }
                }
                1 => {
                    let f = numbers.next(n);
                    r.pin(f);
                    queue.retain(|x| *x != f);
                }
                _ => {
                    let f = numbers.next(n);
                    r.unpin(f);
                    queue.retain(|x| *x != f);
                    queue.push(f);
                }
            }
            assert_eq!(r.len(), queue.len());
        }
    }
}

#[test]
fn lru_keeps_its_order_when_every_slot_was_pinned() {
    let mut r = LRUReplacer::new(3);
    r.pin(1);
    r.pin(0);
    r.pin(2);
    r.unpin(1);
    r.unpin(2);
    r.unpin(0);
    // each slot in the order in which it was unpinned, round and round
    assert_eq!(r.pick_victim(), Some(1));
    assert_eq!(r.pick_victim(), Some(2));
    assert_eq!(r.pick_victim(), Some(0));
    assert_eq!(r.pick_victim(), Some(1));
}
