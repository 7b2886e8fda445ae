use static_collections::vec::{StaticVec, StaticVecError};

#[test]
fn new_vec_is_empty() {
    let v: StaticVec<8, u64> = StaticVec::new();
    assert!(v.is_empty());
    assert_eq!(v.len(), 0);
    assert_eq!(v.capacity(), 8);
    assert_eq!(v.as_slice(), &[] as &[u64]);
    let d: StaticVec<12, u64> = StaticVec::default();
    assert_eq!(d.capacity(), 12);
    assert_eq!(d.len(), 0);
}

#[test]
fn push_appends_in_order() {
    let mut v: StaticVec<8, u64> = StaticVec::new();
    assert_eq!(v.push(1234), Ok(()));
    assert_eq!(v.as_slice(), &[1234]);
    assert_eq!(v.push(4567), Ok(()));
    assert_eq!(v.as_slice(), &[1234, 4567]);
    assert_eq!(v.len(), 2);
    assert!(!v.is_empty());
}

#[test]
fn push_beyond_capacity_is_refused() {
    let mut v: StaticVec<3, u64> = StaticVec::new();
    assert_eq!(v.push(1), Ok(()));
    assert_eq!(v.push(2), Ok(()));
    assert_eq!(v.push(3), Ok(()));
    assert_eq!(v.push(4), Err(StaticVecError::CapacityExceeded));
    assert_eq!(v.as_slice(), &[1, 2, 3]);
    assert_eq!(v.len(), 3);
}

#[test]
fn pop_returns_last() {
    let mut v: StaticVec<8, u64> = StaticVec::new();
    v.push(1234).unwrap();
    assert_eq!(v.pop(), Ok(1234));
    assert!(v.is_empty());
}

#[test]
fn pop_on_empty_is_refused() {
    let mut v: StaticVec<8, u64> = StaticVec::new();
    assert_eq!(v.pop(), Err(StaticVecError::Empty));
    assert_eq!(v.len(), 0);
    v.push(5).unwrap();
    assert_eq!(v.pop(), Ok(5));
    assert_eq!(v.pop(), Err(StaticVecError::Empty));
}

#[test]
fn length_is_pushes_minus_pops() {
    let mut v: StaticVec<4, u32> = StaticVec::new();
    let mut model: Vec<u32> = Vec::new();
    let steps: [Option<u32>; 12] = [
        Some(1), Some(2), None, Some(3), Some(4), Some(5), None, None, Some(6), None, None, None,
    ];
    let mut pushes = 0usize;
    let mut pops = 0usize;
    for step in steps {
        match step {
            Some(value) => {
                assert_eq!(v.push(value), Ok(()));
                model.push(value);
                pushes += 1;
            }
            None => {
                assert_eq!(v.pop().ok(), model.pop());
                pops += 1;
            }
        }
        assert_eq!(v.len(), pushes - pops);
        assert_eq!(v.as_slice(), model.as_slice());
    }
    assert_eq!(v.len(), 0);
}

#[test]
fn insert_shifts_the_tail_up() {
    let mut v: StaticVec<8, u64> = StaticVec::new();
    v.push(1234).unwrap();
    v.push(4567).unwrap();
    assert_eq!(v.insert(1, 2333), Ok(()));
    assert_eq!(v.as_slice(), &[1234, 2333, 4567]);
    assert_eq!(v.insert(0, 1), Ok(()));
    assert_eq!(v.insert(4, 9), Ok(()));
    assert_eq!(v.as_slice(), &[1, 1234, 2333, 4567, 9]);
}

#[test]
fn insert_is_refused_beyond_the_end_or_the_capacity() {
    let mut v: StaticVec<2, u64> = StaticVec::new();
    assert_eq!(v.insert(1, 7), Err(StaticVecError::OutOfRange { index: 1, length: 0 }));
    assert_eq!(v.insert(0, 7), Ok(()));
    assert_eq!(v.insert(0, 6), Ok(()));
    assert_eq!(v.insert(1, 5), Err(StaticVecError::CapacityExceeded));
    assert_eq!(v.insert(3, 5), Err(StaticVecError::OutOfRange { index: 3, length: 2 }));
    assert_eq!(v.as_slice(), &[6, 7]);
}

#[test]
fn remove_shifts_the_tail_down() {
    let mut v: StaticVec<8, u64> = StaticVec::new();
    v.push(1234).unwrap();
    v.push(4567).unwrap();
    v.push(7890).unwrap();
    assert_eq!(v.remove(1), Ok(4567));
    assert_eq!(v.as_slice(), &[1234, 7890]);
    assert_eq!(v.remove(2), Err(StaticVecError::OutOfRange { index: 2, length: 2 }));
    assert_eq!(v.remove(1), Ok(7890));
    assert_eq!(v.remove(0), Ok(1234));
    assert_eq!(v.remove(0), Err(StaticVecError::OutOfRange { index: 0, length: 0 }));
}

#[test]
fn insert_then_remove_restores() {
    let mut v: StaticVec<8, u8> = StaticVec::new();
    for b in [10u8, 20, 30, 40] {
        v.push(b).unwrap();
    }
    for index in 0..=4usize {
        assert_eq!(v.insert(index, 99), Ok(()));
        assert_eq!(v.remove(index), Ok(99));
        assert_eq!(v.as_slice(), &[10, 20, 30, 40]);
    }
}

#[test]
fn truncate_only_shrinks() {
    let mut v: StaticVec<8, u64> = StaticVec::new();
    for i in 0..6u64 {
        v.push(i).unwrap();
    }
    v.truncate(2);
    assert_eq!(v.as_slice(), &[0, 1]);
    v.truncate(5);
    assert_eq!(v.as_slice(), &[0, 1]);
    v.truncate(2);
    assert_eq!(v.as_slice(), &[0, 1]);
    v.truncate(0);
    assert!(v.is_empty());
}

#[test]
fn clear_retires_everything() {
    let mut v: StaticVec<8, u64> = StaticVec::new();
    v.push(12345).unwrap();
    v.push(67890).unwrap();
    assert!(!v.is_empty());
    v.clear();
    assert_eq!(v.as_slice(), &[] as &[u64]);
    assert!(v.is_empty());
    assert_eq!(v.push(1), Ok(()));
    assert_eq!(v.as_slice(), &[1]);
}

#[test]
fn values_need_not_be_copyable() {
    let mut v: StaticVec<2, String> = StaticVec::new();
    assert_eq!(v.push(String::from("a")), Ok(()));
    assert_eq!(v.push(String::from("b")), Ok(()));
    assert_eq!(v.push(String::from("c")), Err(StaticVecError::CapacityExceeded));
    assert_eq!(v.insert(0, String::from("z")), Err(StaticVecError::CapacityExceeded));
    assert_eq!(v.remove(0), Ok(String::from("a")));
    assert_eq!(v.insert(0, String::from("z")), Ok(()));
    assert_eq!(v.pop(), Ok(String::from("b")));
    assert_eq!(v.as_slice(), &[String::from("z")]);
}

#[test]
fn as_mut_slice_overwrites_in_place() {
    let mut v: StaticVec<4, u16> = StaticVec::new();
    v.push(1).unwrap();
    v.push(2).unwrap();
    let s = v.as_mut_slice();
    assert_eq!(s.len(), 2);
    s[0] = 7;
    assert_eq!(v.as_slice(), &[7, 2]);
}

#[test]
fn force_assign_then_force_resize_builds_a_vector() {
    let mut a: StaticVec<12, u64> = StaticVec::new();
    let mut i = 0usize;
    while i < 7 {
        a.force_assign(i, 4);
        i += 1;
    }
    assert_eq!(a.len(), 0);
    assert!(a.is_written(6));
    assert!(!a.is_written(7));
    a.force_resize(7);
    assert_eq!(a.as_slice(), &[4; 7]);

    let mut b: StaticVec<16, u32> = StaticVec::new();
    for (index, x) in [1u32, 2, 3, 4, 5, 6, 7, 8].into_iter().enumerate() {
        b.force_assign(index, x);
    }
    b.force_resize(8);
    assert_eq!(b.as_slice(), &[1, 2, 3, 4, 5, 6, 7, 8]);
}

#[test]
fn force_assign_writes_slots_in_any_order() {
    let mut v: StaticVec<6, String> = StaticVec::new();
    v.force_assign(5, String::from("f"));
    v.force_assign(2, String::from("c"));
    v.force_assign(0, String::from("a"));
    assert!(v.is_written(0));
    assert!(!v.is_written(1));
    assert!(v.is_written(2));
    assert!(!v.is_written(3));
    assert!(!v.is_written(4));
    assert!(v.is_written(5));
    assert!(!v.is_written(6));
    assert_eq!(v.len(), 0);
    v.force_resize(1);
    assert_eq!(v.as_slice(), &[String::from("a")]);
    v.force_assign(1, String::from("b"));
    v.force_assign(2, String::from("C"));
    v.force_resize(3);
    assert_eq!(v.as_slice(), &[String::from("a"), String::from("b"), String::from("C")]);
    v.force_assign(4, String::from("e"));
    v.force_assign(3, String::from("d"));
    v.force_resize(6);
    let expected: Vec<String> = ["a", "b", "C", "d", "e", "f"].iter().map(|s| s.to_string()).collect();
    assert_eq!(v.as_slice(), expected.as_slice());
    assert_eq!(v.push(String::from("g")), Err(StaticVecError::CapacityExceeded));
}

#[test]
fn force_resize_keeps_what_the_slots_hold() {
    let mut v: StaticVec<8, u8> = StaticVec::new();
    for b in [1u8, 2, 3, 4] {
        v.push(b).unwrap();
    }
    v.force_resize(2);
    assert_eq!(v.as_slice(), &[1, 2]);
    assert!(v.is_written(3));
    assert!(!v.is_written(4));
    v.force_resize(4);
    assert_eq!(v.as_slice(), &[1, 2, 3, 4]);
    v.force_assign(1, 9);
    assert_eq!(v.as_slice(), &[1, 9, 3, 4]);
    v.force_resize(3);
    assert!(v.is_written(3));
    // A push retires what was written beyond the live values.
    assert_eq!(v.push(7), Ok(()));
    assert_eq!(v.as_slice(), &[1, 9, 3, 7]);
    assert!(v.is_written(3));
    assert!(!v.is_written(4));
    v.force_resize(0);
    assert!(v.is_empty());
    v.force_resize(4);
    assert_eq!(v.as_slice(), &[1, 9, 3, 7]);
    v.truncate(1);
    assert!(!v.is_written(1));
    assert!(!v.is_written(8));
    assert!(!v.is_written(usize::MAX));
}

#[test]
fn filling_beyond_capacity_is_refused() {
    let mut x: StaticVec<12, u64> = StaticVec::new();
    assert_eq!(x.extend_from_slice(&[1234; 16]), Err(StaticVecError::CapacityExceeded));
    assert!(x.is_empty());
    assert_eq!(x.extend_from_slice(&[1234; 12]), Ok(()));
    assert_eq!(x.as_slice(), &[1234; 12]);
    assert_eq!(x.extend_from_slice(&[1]), Err(StaticVecError::CapacityExceeded));
    assert_eq!(x.extend_from_slice(&[]), Ok(()));
}

#[test]
fn insert_slice_opens_a_gap() {
    let mut v: StaticVec<10, u8> = StaticVec::new();
    v.extend_from_slice(&[1, 2, 3, 4]).unwrap();
    assert_eq!(v.insert_slice(1, &[7, 8, 9]), Ok(()));
    assert_eq!(v.as_slice(), &[1, 7, 8, 9, 2, 3, 4]);
    assert_eq!(v.insert_slice(7, &[5, 6]), Ok(()));
    assert_eq!(v.as_slice(), &[1, 7, 8, 9, 2, 3, 4, 5, 6]);
    assert_eq!(v.insert_slice(0, &[0, 0]), Err(StaticVecError::CapacityExceeded));
    assert_eq!(
        v.insert_slice(10, &[]),
        Err(StaticVecError::OutOfRange { index: 10, length: 9 })
    );
    assert_eq!(v.insert_slice(0, &[0]), Ok(()));
    assert_eq!(v.as_slice(), &[0, 1, 7, 8, 9, 2, 3, 4, 5, 6]);
}

#[test]
fn remove_range_closes_the_gap() {
    let mut v: StaticVec<10, u8> = StaticVec::new();
    v.extend_from_slice(&[0, 1, 2, 3, 4, 5, 6]).unwrap();
    assert_eq!(v.remove_range(2, 3), Ok(()));
    assert_eq!(v.as_slice(), &[0, 1, 5, 6]);
    assert_eq!(v.remove_range(3, 2), Err(StaticVecError::OutOfRange { index: 3, length: 4 }));
    assert_eq!(v.remove_range(5, 0), Err(StaticVecError::OutOfRange { index: 5, length: 4 }));
    assert_eq!(v.remove_range(4, 0), Ok(()));
    assert_eq!(v.remove_range(0, 4), Ok(()));
    assert!(v.is_empty());
}

#[test]
fn clone_copies_the_values() {
    let mut v: StaticVec<4, u8> = StaticVec::new();
    v.push(1).unwrap();
    v.push(2).unwrap();
    let mut w = v.clone();
    w.push(3).unwrap();
    assert_eq!(v.as_slice(), &[1, 2]);
    assert_eq!(w.as_slice(), &[1, 2, 3]);
}
