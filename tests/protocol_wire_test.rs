use distribiuted_matrix_multiplication::partition::WorkAssignment;
use distribiuted_matrix_multiplication::protocol::{
    data_len, decode_assignment, decode_dimensions, encode_assignment, encode_dimensions,
    TAG_MATRIX_DATA, TAG_MATRIX_DIMENSIONS, TAG_RESULT_DATA, TAG_WORK_ASSIGNMENT,
};

#[test]
fn tags_are_distinct() {
    let tags = [TAG_MATRIX_DIMENSIONS, TAG_MATRIX_DATA, TAG_RESULT_DATA, TAG_WORK_ASSIGNMENT];
    for i in 0..tags.len() {
        for j in 0..i {
            assert_ne!(tags[i], tags[j]);
        }
    }
}

#[test]
fn dimensions_round_trip() {
    let msg = encode_dimensions(3, 7).unwrap();
    assert_eq!(msg, [3, 7]);
    assert_eq!(decode_dimensions(msg), Some((3, 7)));
    let top = i32::MAX as usize;
    assert_eq!(encode_dimensions(top, 0), Some([i32::MAX, 0]));
    assert_eq!(encode_dimensions(top + 1, 1), None);
    assert_eq!(decode_dimensions([-1, 4]), None);
}

#[test]
fn assignment_round_trip() {
    let a = WorkAssignment { row_start: 2, row_end: 5, col_start: 0, col_end: 9 };
    let msg = encode_assignment(&a).unwrap();
    assert_eq!(msg, [2, 5, 0, 9]);
    assert_eq!(decode_assignment(msg), Some(a));
    assert_eq!(decode_assignment([0, 0, 0, -3]), None);
    let far = WorkAssignment { row_start: 0, row_end: usize::MAX, col_start: 0, col_end: 1 };
    assert_eq!(encode_assignment(&far), None);
}

#[test]
fn data_length_is_the_product() {
    assert_eq!(data_len(4, 5), Some(20));
    assert_eq!(data_len(0, usize::MAX), Some(0));
    assert_eq!(data_len(usize::MAX, 2), None);
}
