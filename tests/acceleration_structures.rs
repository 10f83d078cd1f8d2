use big_lehmer::EncodeAS;

fn encode_as_helper(numbers: &[u32]) -> Box<[u32]> {
    let mut t = EncodeAS::new(numbers.len() as u32);

    let mut result = vec![0u32; numbers.len()].into_boxed_slice();
    for (&number, r) in numbers.iter().zip(result.iter_mut()) {
        *r = t.insert(number);
    }
    result
}

#[test]
fn acceleration_structures_test_encode_as_0() {
    let sequence = [7, 2, 0, 6, 5, 1, 4, 3];
    let encoded = encode_as_helper(&sequence);
    assert_eq!(*encoded, [7, 2, 0, 4, 3, 0, 1, 0]);
}

#[test]
fn acceleration_structures_test_encode_as_1() {
    let sequence = [0, 1, 2, 3, 4, 5, 6, 7];
    let encoded = encode_as_helper(&sequence);
    assert_eq!(*encoded, [0, 0, 0, 0, 0, 0, 0, 0]);
}

#[test]
fn acceleration_structures_test_encode_as_2() {
    let sequence = [7, 6, 5, 4, 3, 2, 1, 0];
    let encoded = encode_as_helper(&sequence);
    assert_eq!(*encoded, [7, 6, 5, 4, 3, 2, 1, 0]);
}

#[test]
fn acceleration_structures_test_encode_as_3() {
    let sequence = [
        3, 2, 15, 5, 23, 6, 16, 31, 19, 29, 21, 13, 17, 0, 27, 8, 24, 18, 12, 1, 9, 4, 14, 20,
            28, 30, 7, 11, 25, 22, 26, 10,
    ];

    let encoded = encode_as_helper(&sequence);

    assert_eq!(
        *encoded,
        [
            3, 2, 13, 3, 19, 3, 11, 24, 13, 21, 14, 9, 10, 0, 15, 3, 11, 8, 6, 0, 2, 0, 3, 3,
                6, 6, 0, 1, 2, 1, 1, 0
        ]
    );
}

#[test]
fn acceleration_structures_test_get_child() {
    assert_eq!(EncodeAS::_left_child_id(2), 1);
    assert_eq!(EncodeAS::_right_child_id(2), 3);
    assert_eq!(EncodeAS::_left_child_id(4), 2);
    assert_eq!(EncodeAS::_right_child_id(4), 6);
    assert_eq!(EncodeAS::_left_child_id(6), 5);
    assert_eq!(EncodeAS::_right_child_id(6), 7);
    assert_eq!(EncodeAS::_left_child_id(8), 4);
    assert_eq!(EncodeAS::_right_child_id(8), 12);
}

fn parent_child_roundtrip(node_id: u32) {
    let left = EncodeAS::_left_child_id(node_id);
    assert_eq!(EncodeAS::_parent_id(left), node_id);
    let right = EncodeAS::_right_child_id(node_id);
    assert_eq!(EncodeAS::_parent_id(right), node_id);
}

#[test]
fn acceleration_structures_test_get_parent() {
    for i in (2..1024).step_by(2) {
        parent_child_roundtrip(i);
    }
}
