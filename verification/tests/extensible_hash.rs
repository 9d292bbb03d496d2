use qdb::extensible_hash::HashTable;

#[test]
fn put_get() {
    let mut ht = HashTable::<usize>::new();
    ht.put(42, 100);
    ht.put(43, 200);
    ht.put(44, 300);
    ht.put(45, 400);
    assert_eq!(ht.get(42), Some(&100));
    assert_eq!(ht.get(43), Some(&200));
    assert_eq!(ht.get(44), Some(&300));
    assert_eq!(ht.get(45), Some(&400));
    assert_eq!(ht.get(46), None);
}

#[test]
fn a_lot_of_items() {
    let mut ht = HashTable::<usize>::new();
    for i in 0..1000 {
        ht.put(i, 1000 + i);
    }
    for i in 0..1000 {
        assert_eq!(ht.get(i), Some(&(1000 + i)));
    }
    assert_eq!(ht.get(1000), None);

    for i in 100..200 {
        ht.remove(i);
    }
    for i in 0..1000 {
        if i >= 100 && i < 200 {
            assert_eq!(ht.get(i), None);
        } else {
            assert_eq!(ht.get(i), Some(&(1000 + i)));
        }
    }
}

#[test]
fn remove() {
    let mut ht = HashTable::<usize>::new();
    ht.put(42, 100);
    ht.put(43, 200);
    assert_eq!(ht.get(42), Some(&100));
    assert_eq!(ht.get(43), Some(&200));
    ht.remove(42);
    assert_eq!(ht.get(42), None);
    assert_eq!(ht.get(43), Some(&200));
}

#[test]
fn split() {
    let mut ht = HashTable::<usize>::new();
    ht.put(42, 100);
    ht.put(43, 200);
    ht.put(44, 300);
    ht.put(45, 400);
    ht.split();
    assert_eq!(ht.bucket_count(), 2);
    assert_eq!(ht.bucket_len(0), Some(2));
    assert_eq!(ht.bucket_len(1), Some(2));
}

#[test]
fn new_table_has_one_empty_bucket() {
    let ht = HashTable::<u8>::new();
    assert_eq!(ht.bucket_count(), 1);
    assert_eq!(ht.bucket_len(0), Some(0));
    assert_eq!(ht.bucket_len(1), None);
    assert_eq!(ht.get(0), None);
}

#[test]
fn table_grows_when_more_than_four_fifths_full() {
    let mut ht = HashTable::<usize>::new();
    // One bucket has room for ten entries: eight do not overfill it.
    for i in 0..8 {
        ht.put(i, i);
        assert_eq!(ht.bucket_count(), 1);
    }
    // The ninth does: 9 of 10 is more than 80 percent.
    ht.put(8, 8);
    assert_eq!(ht.bucket_count(), 2);
    // Even keys stayed, odd keys went to the new bucket.
    assert_eq!(ht.bucket_len(0), Some(5));
    assert_eq!(ht.bucket_len(1), Some(4));
    // Two buckets have room for twenty: sixteen do not overfill them.
    for i in 9..16 {
        ht.put(i, i);
        assert_eq!(ht.bucket_count(), 2);
    }
    ht.put(16, 16);
    assert_eq!(ht.bucket_count(), 3);
    for i in 0..17 {
        assert_eq!(ht.get(i), Some(&i));
    }
}

#[test]
fn values_of_one_key_come_out_oldest_first() {
    let mut ht = HashTable::<&str>::new();
    ht.put(7, "first");
    ht.put(7, "second");
    ht.put(9, "other");
    assert_eq!(ht.get(7), Some(&"first"));
    ht.remove(7);
    assert_eq!(ht.get(7), Some(&"second"));
    assert_eq!(ht.get(9), Some(&"other"));
    ht.remove(7);
    assert_eq!(ht.get(7), None);
    // Nothing is left under 7: removing once more changes nothing.
    ht.remove(7);
    assert_eq!(ht.get(7), None);
    assert_eq!(ht.get(9), Some(&"other"));
}

#[test]
fn removal_reaches_behind_other_keys_of_the_bucket() {
    let mut ht = HashTable::<usize>::new();
    ht.put(2, 20);
    ht.put(4, 40);
    ht.put(6, 60);
    ht.remove(6);
    assert_eq!(ht.get(2), Some(&20));
    assert_eq!(ht.get(4), Some(&40));
    assert_eq!(ht.get(6), None);
}

#[test]
fn many_keys_of_one_bucket_survive_growth() {
    let mut ht = HashTable::<usize>::new();
    ht.put(2, 2);
    for k in 0..8 {
        ht.put(2 * k + 1, k);
    }
    assert_eq!(ht.get(2), Some(&2));
    for k in 0..8 {
        assert_eq!(ht.get(2 * k + 1), Some(&k));
    }
    for k in 0..64 {
        ht.put(1024 * k, k);
    }
    for k in 1..64 {
        assert_eq!(ht.get(1024 * k), Some(&k));
    }
}

/// A small generator of numbers that look random, the same on every run.
struct Numbers(u64);

impl Numbers {
    fn next(&mut self, below: usize) -> usize {
        self.0 = self.0.wrapping_mul(6364136223846793005).wrapping_add(1442695040888963407);
        ((self.0 >> 33) as usize) % below
    }
}

#[test]
fn table_agrees_with_a_list_of_values_per_key() {
    let mut numbers = Numbers(3);
    let mut ht = HashTable::<usize>::new();
    let mut lists: Vec<Vec<usize>> = vec![Vec::new(); 64];
    let mut entries = 0;
    for step in 0..20000 {
        let slot = numbers.next(64);
        // keys far apart, many of them in the same buckets for a long time
        let key = slot * 4096 + slot % 3;
        match numbers.next(4) {
            0 | 1 => {
                ht.put(key, step);
                lists[slot].push(step);
                entries += 1;
            }
            2 => {
                ht.remove(key);
                if !lists[slot].is_empty() {
                    lists[slot].remove(0);
                    entries -= 1;
                }
            }
            _ => assert_eq!(ht.get(key), lists[slot].first()),
        }
    }
    for slot in 0..64 {
        assert_eq!(ht.get(slot * 4096 + slot % 3), lists[slot].first());
    }
    let mut held = 0;
    for b in 0..ht.bucket_count() {
        held += ht.bucket_len(b).unwrap();
    }
    assert_eq!(held, entries);
}
