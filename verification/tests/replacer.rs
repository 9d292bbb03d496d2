use qdb::clock_replacer::ClockReplacer;
use qdb::lru_replacer::LRUReplacer;
use qdb::replacer::{FrameID, Replacer};

fn use_page<R: Replacer>(r: &mut R, frame: FrameID) {
    r.pin(frame);
    r.unpin(frame);
}

#[test]
fn clock_basic() {
    let mut r = ClockReplacer::new(3);
    for _ in 0..5 {
        assert!(r.pick_victim().is_some());
    }
    r.pin(0);
    for _ in 0..5 {
        let v = r.pick_victim();
        assert!(v.is_some());
        assert_ne!(v, Some(0));
    }
    r.pin(1);
    assert_eq!(r.pick_victim(), Some(2));
    assert_eq!(r.pick_victim(), Some(2));
    r.pin(2);
    assert_eq!(r.pick_victim(), None);
    assert_eq!(r.pick_victim(), None);
    r.unpin(0);
    assert_eq!(r.pick_victim(), Some(0));
    assert_eq!(r.pick_victim(), Some(0));
}

#[test]
fn clock_order() {
    let mut r = ClockReplacer::new(3);
    println!("{}", r.describe());
    assert_eq!(r.pick_victim(), Some(0));
    println!("{}", r.describe());
    use_page(&mut r, 0);
    println!("{}", r.describe());
    assert_eq!(r.pick_victim(), Some(1));
    println!("{}", r.describe());
    use_page(&mut r, 1);
    println!("{}", r.describe());
    use_page(&mut r, 0);
    println!("{}", r.describe());
    assert_eq!(r.pick_victim(), Some(2));
    println!("{}", r.describe());
    use_page(&mut r, 2);
    println!("{}", r.describe());
    assert_eq!(r.pick_victim(), Some(0));
    use_page(&mut r, 0);
    assert_eq!(r.pick_victim(), Some(1));
    use_page(&mut r, 1);
    assert_eq!(r.pick_victim(), Some(2));
    use_page(&mut r, 2);
    use_page(&mut r, 0);
    assert_eq!(r.pick_victim(), Some(0));
    use_page(&mut r, 0);
    use_page(&mut r, 1);
    assert_eq!(r.pick_victim(), Some(2));
    use_page(&mut r, 0);
}

#[test]
fn lru_basic() {
    let mut r = LRUReplacer::new(3);
    for _ in 0..5 {
        assert!(r.pick_victim().is_some());
    }
    r.pin(0);
    for _ in 0..5 {
        let v = r.pick_victim();
        assert!(v.is_some());
        assert_ne!(v, Some(0));
    }
    r.pin(1);
    assert_eq!(r.pick_victim(), Some(2));
    assert_eq!(r.pick_victim(), Some(2));
    r.pin(2);
    assert_eq!(r.pick_victim(), None);
    assert_eq!(r.pick_victim(), None);
    r.unpin(0);
    assert_eq!(r.pick_victim(), Some(0));
    assert_eq!(r.pick_victim(), Some(0));
}

#[test]
fn lru_order() {
    let mut r = LRUReplacer::new(3);
    assert_eq!(r.pick_victim(), Some(0));
    use_page(&mut r, 0);
    assert_eq!(r.pick_victim(), Some(1));
    use_page(&mut r, 1);
    use_page(&mut r, 0);
    assert_eq!(r.pick_victim(), Some(2));
    use_page(&mut r, 2);
    assert_eq!(r.pick_victim(), Some(1));
    use_page(&mut r, 1);
    use_page(&mut r, 0);
    assert_eq!(r.pick_victim(), Some(2));
    use_page(&mut r, 2);
    use_page(&mut r, 1);
    assert_eq!(r.pick_victim(), Some(0));
    use_page(&mut r, 0);
    assert_eq!(r.pick_victim(), Some(2));
    use_page(&mut r, 2);
    use_page(&mut r, 1);
    use_page(&mut r, 2);
}

#[test]
fn clock_describes_itself() {
    let mut r = ClockReplacer::new(3);
    assert_eq!(r.describe(), "0, 1, 2,  (h=0)");
    r.pin(0);
    r.unpin(1);
    assert_eq!(r.describe(), "0p, 1*, 2,  (h=0)");
    assert_eq!(r.pick_victim(), Some(2));
    assert_eq!(r.describe(), "0p, 1, 2,  (h=0)");
    r.pin(1);
    r.unpin(1);
    r.pin(2);
    assert_eq!(r.describe(), "0p, 1*, 2p,  (h=0)");
    assert_eq!(r.pick_victim(), Some(1));
    assert_eq!(r.describe(), "0p, 1, 2p,  (h=2)");
    assert_eq!(ClockReplacer::new(0).describe(), " (h=0)");
    let mut big = ClockReplacer::new(12);
    big.pin(11);
    assert_eq!(big.describe(), "0, 1, 2, 3, 4, 5, 6, 7, 8, 9, 10, 11p,  (h=0)");
}

#[test]
fn clock_never_picks_a_pinned_slot() {
    let mut r = ClockReplacer::new(3);
    r.pin(0);
    for _ in 0..10 {
        let v = r.pick_victim().unwrap();
        assert!(v == 1 || v == 2);
    }
    r.pin(1);
    r.pin(2);
    for _ in 0..3 {
        assert_eq!(r.pick_victim(), None);
    }
    assert_eq!(r.len(), 0);
    r.unpin(2);
    assert_eq!(r.len(), 1);
    assert_eq!(r.pick_victim(), Some(2));
}

#[test]
fn clock_gives_a_second_chance() {
    let mut r = ClockReplacer::new(3);
    r.pin(0);
    r.pin(1);
    r.pin(2);
    r.unpin(1);
    r.unpin(0);
    r.unpin(2);
    // all three are marked used: the hand goes once round and takes the
    // marks away, then stops where it started
    assert_eq!(r.pick_victim(), Some(0));
    // slot 1 has lost its mark on the way, and is next
    assert_eq!(r.pick_victim(), Some(1));
}

#[test]
fn lru_picks_the_slot_that_was_unpinned_longest_ago() {
    let mut r = LRUReplacer::new(3);
    r.pin(0);
    r.pin(1);
    r.pin(2);
    r.unpin(0);
    r.unpin(1);
    r.unpin(0);
    assert_eq!(r.len(), 2);
    assert_eq!(r.pick_victim(), Some(1));
    r.pin(1);
    assert_eq!(r.pick_victim(), Some(0));
}

#[test]
fn lru_recency_with_every_slot_victimizable() {
    let mut r = LRUReplacer::new(3);
    r.unpin(0);
    r.unpin(1);
    r.unpin(0);
    // slot 2 was never touched and goes first, then 1, and 0 last
    assert_eq!(r.pick_victim(), Some(2));
    r.pin(2);
    assert_eq!(r.pick_victim(), Some(1));
    r.pin(1);
    assert_eq!(r.pick_victim(), Some(0));
}

#[test]
fn pinning_twice_counts_once() {
    let mut c = ClockReplacer::new(2);
    c.pin(0);
    c.pin(0);
    assert_eq!(c.len(), 1);
    c.unpin(0);
    c.unpin(0);
    assert_eq!(c.len(), 2);
    let mut l = LRUReplacer::new(2);
    l.pin(1);
    l.pin(1);
    assert_eq!(l.len(), 1);
    l.unpin(1);
    l.unpin(1);
    assert_eq!(l.len(), 2);
    assert_eq!(l.pick_victim(), Some(0));
}

#[test]
fn replacers_without_slots_have_no_victim() {
    assert_eq!(ClockReplacer::new(0).pick_victim(), None);
    assert_eq!(LRUReplacer::new(0).pick_victim(), None);
    assert_eq!(LRUReplacer::new(0).len(), 0);
    let mut one = LRUReplacer::new(1);
    assert_eq!(one.pick_victim(), Some(0));
    assert_eq!(one.pick_victim(), Some(0));
    one.pin(0);
    assert_eq!(one.pick_victim(), None);
    one.unpin(0);
    assert_eq!(one.pick_victim(), Some(0));
}
