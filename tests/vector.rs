use persevere::vector::Vector;

#[test]
fn from_vec65536() {
    let items: Vec<u32> = (0..65536).collect();
    let v: Vector<u32> = Vector::from_slice(&items);
    for i in 0..65536 {
        assert_eq!(*v.get(i).unwrap(), i)
    }
}

#[test]
fn append_in_order() {
    let mut v: Vector<u32> = Vector::new();
    for i in 0..2000u32 {
        v = v.append(&i);
        assert_eq!(v.size(), i + 1);
    }
    for i in 0..2000u32 {
        assert_eq!(v.get(i), Some(&i));
    }
    assert_eq!(v.get(2000), None);
}

#[test]
fn scenario_append_keeps_old_version() {
    let v = Vector::from_slice(&[0u32, 1, 2, 3]);
    assert_eq!(v.get(0), Some(&0));
    assert_eq!(v.get(3), Some(&3));
    let w = v.append(&99);
    assert_eq!(v.size(), 4);
    for i in 0..4u32 {
        assert_eq!(v.get(i), Some(&i));
    }
    assert_eq!(v.get(4), None);
    assert_eq!(w.size(), 5);
    assert_eq!(w.get(4), Some(&99));
}

#[test]
fn empty_vector_out_of_bounds() {
    let v: Vector<u32> = Vector::new();
    assert_eq!(v.size(), 0);
    assert_eq!(v.get(0), None);
}

#[test]
fn deepening_boundaries() {
    let mut v: Vector<u64> = Vector::new();
    for i in 0..(32u64 * 32 + 1) {
        v = v.append(&(i * 7));
    }
    for i in [0u32, 31, 32, 33, 1023, 1024] {
        assert_eq!(v.get(i), Some(&(i as u64 * 7)));
    }
    assert_eq!(v.get(1025), None);
}
