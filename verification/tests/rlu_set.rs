use rlu::RluSet;

#[test]
fn set_my_test() {
    let mut set: RluSet<u32> = RluSet::new();
    set.insert(0);
    assert!(set.contains(0));
    set.insert(1);
    assert!(set.contains(1));
    set.insert(100);
    set.insert(100);
    assert!(set.contains(100));
    set.delete(1);
    println!("{:?}", set.elements());
}

#[test]
fn set_simple() {
    let mut set = RluSet::new();

    assert!(!set.contains(0));
    assert!(!set.delete(0));
    assert!(set.insert(2));
    println!("Ins 0: {:?}", set.elements());

    assert!(set.insert(0));
    assert!(set.insert(1));
    println!("Ins 1: {:?}", set.elements());

    for i in 0..=2 {
        assert!(set.contains(i));
    }

    assert!(!set.contains(5));
    println!("Contains");

    assert!(set.delete(1));
    println!("Del 1: {:?}", set.elements());

    assert!(!set.contains(1));

    assert!(set.delete(0));
    assert!(!set.contains(0));

    assert!(set.delete(2));
    println!("Del 2: {:?}", set.elements());
}

#[test]
fn new_set_is_empty() {
    let mut set: RluSet<u64> = RluSet::new();
    assert_eq!(set.len(), 0);
    assert_eq!(set.elements(), Vec::<u64>::new());
    assert!(!set.contains(7));
}

#[test]
fn insert_puts_in_front_once() {
    let mut set: RluSet<u32> = RluSet::new();
    assert!(set.insert(3));
    assert!(set.insert(1));
    assert!(set.insert(2));
    assert!(!set.insert(1));
    assert_eq!(set.elements(), vec![2, 1, 3]);
    assert_eq!(set.len(), 3);
}

#[test]
fn delete_middle_first_and_last() {
    let mut set: RluSet<u32> = RluSet::new();
    for v in [1u32, 2, 3, 4, 5] {
        assert!(set.insert(v));
    }
    assert_eq!(set.elements(), vec![5, 4, 3, 2, 1]);
    assert!(set.delete(3));
    assert_eq!(set.elements(), vec![5, 4, 2, 1]);
    assert!(set.delete(5));
    assert_eq!(set.elements(), vec![4, 2, 1]);
    assert!(set.delete(1));
    assert_eq!(set.elements(), vec![4, 2]);
    assert!(!set.delete(3));
    assert_eq!(set.len(), 2);
}

#[test]
fn insert_after_delete_restores() {
    let mut set: RluSet<u32> = RluSet::new();
    assert!(set.insert(10));
    assert!(set.insert(20));
    let before = set.elements();
    assert!(set.insert(30));
    assert!(set.delete(30));
    assert_eq!(set.elements(), before);
}

#[test]
fn many_operations_stay_consistent() {
    let mut set: RluSet<u32> = RluSet::new();
    for v in 0..50u32 {
        assert!(set.insert(v));
    }
    assert_eq!(set.len(), 50);
    for v in (0..50u32).filter(|v| v % 2 == 0) {
        assert!(set.delete(v));
    }
    assert_eq!(set.len(), 25);
    for v in 0..50u32 {
        assert_eq!(set.contains(v), v % 2 == 1);
    }
}
