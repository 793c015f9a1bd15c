use lockfree::array::LockFreeArray;
use lockfree::codec::{pack, unpack, FIELD_RANGE};

#[test]
fn pack_puts_index_low_and_tag_high() {
    assert_eq!(pack(5, 7), (7u64 << 32) | 5);
    assert_eq!(pack(0, 0), 0);
    assert_eq!(pack(0xFFFF_FFFF, 1), 0x1_FFFF_FFFF);
}

#[test]
fn pack_wraps_tag_silently() {
    assert_eq!(pack(1, FIELD_RANGE), 1);
    assert_eq!(pack(3, FIELD_RANGE + 2), (2u64 << 32) | 3);
}

#[test]
fn unpack_splits_fields() {
    assert_eq!(unpack((9u64 << 32) | 3), (3, 9));
    assert_eq!(unpack(pack(42, 17)), (42, 17));
    assert_eq!(unpack(u64::MAX), (0xFFFF_FFFF, 0xFFFF_FFFF));
}

#[test]
fn new_array_starts_at_index_zero_version_zero() {
    let a = LockFreeArray::<u32, 4>::new();
    assert_eq!(a.freelist_head(), 0);
    assert_eq!(unpack(a.freelist_head()), (0, 0));
}

#[test]
fn insert_then_take_returns_value_once() {
    let mut a = LockFreeArray::<String, 3>::new();
    let i = a.try_insert(String::from("alpha")).unwrap();
    assert_eq!(i, 0);
    assert_eq!(a.take(i), Some(String::from("alpha")));
    assert_eq!(a.take(i), None);
}

#[test]
fn live_indices_are_distinct() {
    let mut a = LockFreeArray::<u32, 3>::new();
    let i = a.try_insert(10).unwrap();
    let j = a.try_insert(20).unwrap();
    let k = a.try_insert(30).unwrap();
    assert_ne!(i, j);
    assert_ne!(j, k);
    assert_ne!(i, k);
    assert_eq!(a.take(j), Some(20));
    let l = a.try_insert(40).unwrap();
    assert_eq!(l, j);
    assert_eq!(a.take(i), Some(10));
    assert_eq!(a.take(k), Some(30));
    assert_eq!(a.take(l), Some(40));
}

#[test]
fn take_of_empty_slot_changes_nothing() {
    let mut a = LockFreeArray::<u32, 4>::new();
    a.try_insert(1).unwrap();
    let before = a.freelist_head();
    assert_eq!(a.take(2), None);
    assert_eq!(a.take(2), None);
    assert_eq!(a.freelist_head(), before);
    assert_eq!(a.try_insert(2), Ok(1));
}

#[test]
fn capacity_four_fifth_insert_fails() {
    let mut a = LockFreeArray::<String, 4>::new();
    let mut seen = vec![false; 4];
    for name in ["a", "b", "c", "d"] {
        let i = a.try_insert(String::from(name)).unwrap();
        assert!(i < 4);
        assert!(!seen[i]);
        seen[i] = true;
    }
    assert!(seen.iter().all(|s| *s));
    assert_eq!(a.try_insert(String::from("e")), Err(String::from("e")));
    assert_eq!(unpack(a.freelist_head()).0, 4);
}

#[test]
fn take_at_and_past_capacity_is_none() {
    let mut a = LockFreeArray::<u32, 4>::new();
    for v in 0..4u32 {
        a.try_insert(v).unwrap();
    }
    let before = a.freelist_head();
    assert_eq!(a.take(4), None);
    assert_eq!(a.take(5), None);
    assert_eq!(a.take(usize::MAX), None);
    assert_eq!(a.freelist_head(), before);
}

#[test]
fn zero_capacity_rejects_every_insert() {
    let mut a = LockFreeArray::<u32, 0>::new();
    assert_eq!(a.try_insert(7), Err(7));
    assert_eq!(a.take(0), None);
}

#[test]
fn freed_indices_come_back_last_in_first_out() {
    let mut a = LockFreeArray::<u32, 3>::new();
    for v in 0..3u32 {
        a.try_insert(v).unwrap();
    }
    assert_eq!(a.take(2), Some(2));
    assert_eq!(a.take(0), Some(0));
    assert_eq!(unpack(a.freelist_head()).0, 0);
    assert_eq!(a.try_insert(100), Ok(0));
    assert_eq!(a.try_insert(200), Ok(2));
    assert_eq!(a.try_insert(300), Err(300));
}

#[test]
fn version_advances_on_removal_and_holds_on_return() {
    let mut a = LockFreeArray::<u32, 2>::new();
    a.try_insert(1).unwrap();
    assert_eq!(unpack(a.freelist_head()), (1, 1));
    a.try_insert(2).unwrap();
    assert_eq!(unpack(a.freelist_head()), (2, 2));
    a.take(1).unwrap();
    assert_eq!(unpack(a.freelist_head()), (1, 2));
}

#[test]
fn stale_head_word_differs_after_pop_pop_push() {
    let mut a = LockFreeArray::<u32, 4>::new();
    let observed = a.freelist_head();
    let (x, _) = unpack(observed);
    assert_eq!(a.try_insert(11), Ok(x));
    assert_eq!(a.try_insert(22), Ok(1));
    assert_eq!(a.take(x), Some(11));
    let now = a.freelist_head();
    assert_eq!(unpack(now).0, x);
    assert_ne!(now, observed);
    assert_eq!(unpack(now).1, 2);
    assert_eq!(a.try_insert(33), Ok(x));
    assert_eq!(a.try_insert(44), Ok(2));
}

#[test]
fn interleaved_producers_and_consumer_lose_nothing() {
    let mut a = LockFreeArray::<usize, 4>::new();
    let per_producer: usize = 1000;
    let mut sent = [0usize; 2];
    let mut observed = vec![0u32; 2 * per_producer];
    let mut turn: usize = 0;
    while sent[0] < per_producer || sent[1] < per_producer {
        for p in 0..2 {
            if sent[p] < per_producer && (turn + p) % 3 != 0 {
                let tagged = p * per_producer + sent[p];
                if a.try_insert(tagged).is_ok() {
                    sent[p] += 1;
                }
            }
        }
        if turn % 2 == 0 {
            for i in 0..4 {
                if let Some(v) = a.take(i) {
                    observed[v] += 1;
                }
            }
        }
        turn += 1;
    }
    for i in 0..4 {
        if let Some(v) = a.take(i) {
            observed[v] += 1;
        }
    }
    assert!(observed.iter().all(|c| *c == 1));
    assert_eq!(observed.len(), 2000);
}
