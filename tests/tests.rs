use packed_freelist::{AllocationID, PackedFreelist, MAX_SIZE};

struct TestStruct {
    pub n: u32,
}

#[test]
fn capacity() {
    const CAPACITY: usize = 5;
    let p: PackedFreelist<u32> = PackedFreelist::with_capacity(CAPACITY);
    assert_eq!(CAPACITY, p.capacity());
}

#[test]
fn len() {
    let mut p: PackedFreelist<u32> = PackedFreelist::with_capacity(5);
    assert_eq!(0, p.len());

    assert!(p.insert(1).is_ok());
    assert_eq!(1, p.len());
}

#[test]
fn contains() {
    {
        let p: PackedFreelist<u32> = PackedFreelist::with_capacity(5);
        assert_eq!(p.contains(0), false);
    }

    {
        let mut p: PackedFreelist<u32> = PackedFreelist::with_capacity(5);
        let a = p.insert(99).unwrap();
        assert_eq!(p.contains(a), true);
        assert_eq!(p.contains(0), false);
        assert_eq!(p.contains(1), false);
        assert_eq!(p.contains(99), false);
    }
}

#[test]
fn insert() {
    {
        const CAPACITY: usize = 5;
        let mut p: PackedFreelist<usize> = PackedFreelist::with_capacity(CAPACITY);
        for i in 0..CAPACITY {
            assert!(p.insert(i).is_ok());
        }
        let v = CAPACITY + 1;
        let r = p.insert(v);
        let err = r.err().unwrap();
        assert_eq!(
            err.message(),
            format!("Failed to acquire allocation with index {}", v)
        );
    }

    {
        let mut p: PackedFreelist<usize> = PackedFreelist::with_capacity(1);
        let id1 = p.insert(1).unwrap();
        assert!(p.remove(id1).is_ok());
        let id2 = p.insert(1).unwrap();
        assert_ne!(id1, id2);
    }
}

#[test]
fn remove() {
    {
        let mut p: PackedFreelist<TestStruct> = PackedFreelist::with_capacity(5);
        assert_eq!(p.len(), 0);
        let a = p.insert(TestStruct { n: 0 }).unwrap();
        assert_eq!(p.len(), 1);
        assert!(p.remove(a).is_ok());
        assert_eq!(p.len(), 0);
    }

    {
        let mut p: PackedFreelist<TestStruct> = PackedFreelist::with_capacity(3);
        let id1 = p.insert(TestStruct { n: 1 }).unwrap();
        let id2 = p.insert(TestStruct { n: 2 }).unwrap();
        let id3 = p.insert(TestStruct { n: 3 }).unwrap();

        assert_eq!(p.len(), 3);
        assert!(p.contains(id1));
        assert!(p.contains(id2));
        assert!(p.contains(id3));

        assert!(p.remove(id1).is_ok());
        assert_eq!(p.len(), 2);
        assert!(p.contains(id3));
        assert!(p.contains(id2));
        assert!(!p.contains(id1));

        assert!(p.remove(id3).is_ok());
        assert_eq!(p.len(), 1);
        assert!(!p.contains(id3));
        assert!(p.contains(id2));
        assert!(!p.contains(id1));

        assert!(p.remove(id2).is_ok());
        assert_eq!(p.len(), 0);
        assert!(!p.contains(id3));
        assert!(!p.contains(id2));
        assert!(!p.contains(id1));
    }
}

#[test]
fn iterator() {
    {
        let mut p: PackedFreelist<u32> = PackedFreelist::with_capacity(5);
        assert_eq!(p.iter().fold(0, |a, &c| a + c), 0);
        assert!(p.insert(1).is_ok());
        assert!(p.insert(2).is_ok());
        assert_eq!(p.iter().fold(0, |a, &c| a + c), 3);
    }

    {
        let mut p: PackedFreelist<TestStruct> = PackedFreelist::with_capacity(5);
        assert_eq!(p.iter().fold(0, |a, c| a + c.n), 0);
        assert!(p.insert(TestStruct { n: 1 }).is_ok());
        assert!(p.insert(TestStruct { n: 2 }).is_ok());
        assert_eq!(p.iter().fold(0, |a: u32, c| a + c.n), 3);
    }

    {
        const MAX_OBJECTS: usize = 100;
        type TestType = usize;
        let mut p: PackedFreelist<TestType> = PackedFreelist::with_capacity(MAX_OBJECTS);
        let ids: Vec<AllocationID> = (0..MAX_OBJECTS)
            .map(|value| p.insert(value as TestType).unwrap())
            .collect();

        let start = p.as_slice().as_ptr();
        let check = |p: &PackedFreelist<TestType>| {
            assert!(std::ptr::eq(p.as_slice().as_ptr(), start));
            for (i, v) in p.iter().enumerate() {
                assert!(std::ptr::eq(v, start.wrapping_add(i)));
            }
        };
        check(&p);

        // Remove every id once, in a scrambled order (37 is coprime to 100).
        for k in 0..MAX_OBJECTS {
            let id = ids[(k * 37 + 11) % MAX_OBJECTS];
            assert!(p.remove(id).is_ok());
            check(&p);
        }
        assert_eq!(p.len(), 0);
    }
}

#[test]
fn index() {
    {
        let mut p: PackedFreelist<u32> = PackedFreelist::with_capacity(5);
        let a = p.insert(1).unwrap();
        let b = p.insert(2).unwrap();
        assert_eq!(*p.index(a), 1);
        assert_eq!(*p.index(b), 2);
        assert!(p.get(3).is_none());
    }
}

#[test]
fn created_container_is_empty() {
    for n in [0usize, 1, 7] {
        let p: PackedFreelist<u8> = PackedFreelist::with_capacity(n);
        assert_eq!(p.capacity(), n);
        assert_eq!(p.len(), 0);
        assert_eq!(p.size(), 0);
        for x in [0u32, 1, 2, 6, 0x10000, 0x10001, 0x20003, u32::MAX] {
            assert!(!p.contains(x));
            assert!(p.get(x).is_none());
        }
    }
}

#[test]
fn fill_then_full() {
    let mut p: PackedFreelist<u64> = PackedFreelist::with_capacity(4);
    for i in 0..4u64 {
        assert!(p.insert(i * 10).is_ok());
    }
    let err = p.insert(40).err().unwrap();
    assert_eq!(err.allocation_index(), 5);
    assert_eq!(err.message(), "Failed to acquire allocation with index 5");
    assert_eq!(p.len(), 4);
    assert_eq!(p.as_slice(), &[0, 10, 20, 30]);
}

#[test]
fn zero_capacity_rejects_every_insert() {
    let mut p: PackedFreelist<u8> = PackedFreelist::with_capacity(0);
    let err = p.insert(1).err().unwrap();
    assert_eq!(err.allocation_index(), 1);
    assert_eq!(p.len(), 0);
    assert!(p.remove(0).is_err());
}

#[test]
fn largest_capacity_fills_exactly() {
    let mut p: PackedFreelist<u16> = PackedFreelist::with_capacity(MAX_SIZE);
    assert_eq!(p.capacity(), 65534);
    for i in 0..MAX_SIZE {
        assert!(p.insert(i as u16).is_ok());
    }
    let err = p.insert(0).err().unwrap();
    assert_eq!(err.allocation_index(), 65535);
    assert_eq!(err.message(), "Failed to acquire allocation with index 65535");
}

#[test]
fn ids_carry_record_and_generation() {
    let mut p: PackedFreelist<u8> = PackedFreelist::with_capacity(3);
    let a = p.insert(1).unwrap();
    let b = p.insert(2).unwrap();
    let c = p.insert(3).unwrap();
    // First use of records 0, 1 and 2: generation 1.
    assert_eq!(a, 0x10000);
    assert_eq!(b, 0x10001);
    assert_eq!(c, 0x10002);
}

#[test]
fn reissue_changes_generation() {
    let mut p: PackedFreelist<usize> = PackedFreelist::with_capacity(1);
    let id1 = p.insert(1).unwrap();
    assert!(p.remove(id1).is_ok());
    let id2 = p.insert(1).unwrap();
    assert_eq!(id1 & 0xFFFF, id2 & 0xFFFF);
    assert_ne!(id1 >> 16, id2 >> 16);
    assert_eq!(id1, 0x10000);
    assert_eq!(id2, 0x20000);
    assert!(!p.contains(id1));
    assert!(p.contains(id2));
}

#[test]
fn generation_wraps_after_65536_uses() {
    let mut p: PackedFreelist<u8> = PackedFreelist::with_capacity(1);
    let mut last: AllocationID = 0;
    for _ in 0..65536u32 {
        last = p.insert(0).unwrap();
        assert!(p.remove(last).is_ok());
    }
    assert_eq!(last, 0);
    let next = p.insert(0).unwrap();
    assert_eq!(next, 0x10000);
}

#[test]
fn freed_records_are_reused_oldest_first() {
    let mut p: PackedFreelist<char> = PackedFreelist::with_capacity(3);
    let a = p.insert('a').unwrap();
    let b = p.insert('b').unwrap();
    let c = p.insert('c').unwrap();
    assert!(p.remove(b).is_ok());
    assert!(p.remove(a).is_ok());
    let d = p.insert('d').unwrap();
    let e = p.insert('e').unwrap();
    assert_eq!(d, 0x20001);
    assert_eq!(e, 0x20000);
    assert_eq!(*p.index(c), 'c');
    assert_eq!(*p.index(d), 'd');
    assert_eq!(*p.index(e), 'e');
    assert!(p.insert('f').is_err());
    assert!(p.remove(c).is_ok());
    let f = p.insert('f').unwrap();
    assert_eq!(f, 0x20002);
    assert_eq!(p.as_slice(), &['e', 'd', 'f']);
}

#[test]
fn remove_moves_last_value_into_the_gap() {
    let mut p: PackedFreelist<u32> = PackedFreelist::with_capacity(4);
    let a = p.insert(10).unwrap();
    let b = p.insert(20).unwrap();
    let c = p.insert(30).unwrap();
    assert!(p.remove(a).is_ok());
    assert_eq!(p.as_slice(), &[30, 20]);
    assert_eq!(p.get(b), Some(&20));
    assert_eq!(p.get(c), Some(&30));
    assert_eq!(p.get(a), None);
    assert_eq!(p.into_vec(), vec![30, 20]);
}

#[test]
fn double_remove_fails_and_changes_nothing() {
    let mut p: PackedFreelist<u32> = PackedFreelist::with_capacity(3);
    let a = p.insert(1).unwrap();
    let b = p.insert(2).unwrap();
    let c = p.insert(3).unwrap();
    assert!(p.remove(b).is_ok());
    let before: Vec<u32> = p.as_slice().to_vec();
    let err = p.remove(b).err().unwrap();
    assert_eq!(err.id(), b);
    assert_eq!(err.message(), format!("No live value with id {}", b));
    assert_eq!(p.as_slice(), before.as_slice());
    assert_eq!(p.len(), 2);
    assert_eq!(p.get(a), Some(&1));
    assert_eq!(p.get(c), Some(&3));
}

#[test]
fn stale_and_foreign_ids_are_not_found() {
    let mut p: PackedFreelist<u32> = PackedFreelist::with_capacity(2);
    let a = p.insert(5).unwrap();
    assert!(p.remove(a + 0x10000).is_err());
    assert!(p.remove(7).is_err());
    assert!(p.remove(0x10005).is_err());
    assert!(p.contains(a));
    assert_eq!(p.len(), 1);
}

#[test]
fn len_counts_successful_inserts_minus_removes() {
    let mut p: PackedFreelist<u32> = PackedFreelist::with_capacity(3);
    let mut inserted = 0usize;
    let mut removed = 0usize;
    let mut live: Vec<AllocationID> = Vec::new();
    for round in 0..20u32 {
        if round % 3 == 2 && !live.is_empty() {
            let id = live.remove(0);
            assert!(p.remove(id).is_ok());
            removed += 1;
            assert!(p.remove(id).is_err());
        } else if let Ok(id) = p.insert(round) {
            inserted += 1;
            live.push(id);
        }
        assert_eq!(p.len(), inserted - removed);
    }
}

#[test]
fn contains_tracks_inserts_and_removes() {
    let mut p: PackedFreelist<u32> = PackedFreelist::with_capacity(4);
    let a = p.insert(1).unwrap();
    let b = p.insert(2).unwrap();
    assert!(p.contains(a) && p.contains(b));
    assert!(p.remove(a).is_ok());
    assert!(!p.contains(a) && p.contains(b));
    let c = p.insert(3).unwrap();
    assert!(p.contains(c) && p.contains(b) && !p.contains(a));
    assert_ne!(a, c);
}

#[test]
fn three_values_removed_first_last_middle() {
    let mut p: PackedFreelist<char> = PackedFreelist::with_capacity(3);
    let a = p.insert('A').unwrap();
    let b = p.insert('B').unwrap();
    let c = p.insert('C').unwrap();
    assert!(a != b && b != c && a != c);
    assert!(p.remove(a).is_ok());
    assert_eq!(p.len(), 2);
    assert!(p.contains(b) && p.contains(c) && !p.contains(a));
    assert!(p.remove(c).is_ok());
    assert_eq!(p.len(), 1);
    assert!(p.contains(b) && !p.contains(a) && !p.contains(c));
    assert!(p.remove(b).is_ok());
    assert_eq!(p.len(), 0);
}

#[test]
fn sum_over_live_values() {
    let mut p: PackedFreelist<u32> = PackedFreelist::with_capacity(5);
    let one = p.insert(1).unwrap();
    let _two = p.insert(2).unwrap();
    assert_eq!(p.as_slice().iter().sum::<u32>(), 3);
    let ten = p.insert(10).unwrap();
    let _hundred = p.insert(100).unwrap();
    assert!(p.remove(one).is_ok());
    assert!(p.remove(ten).is_ok());
    let _thousand = p.insert(1000).unwrap();
    assert_eq!(p.as_slice().iter().sum::<u32>(), 1102);
    assert_eq!(p.len(), 3);
}
