use mapreduce::generics::{fill_a_vector, FILL_COUNT};

#[test]
fn fill_a_vector_gives_five_copies() {
    assert_eq!(fill_a_vector(&1), vec![1, 1, 1, 1, 1]);
}

#[test]
fn fill_a_vector_works_for_any_copy_type() {
    assert_eq!(fill_a_vector(&'x'), vec!['x'; 5]);
    assert_eq!(fill_a_vector(&(2u8, true)), vec![(2u8, true); 5]);
    assert_eq!(fill_a_vector(&()).len(), 5);
}

#[test]
fn fill_count_is_five() {
    assert_eq!(FILL_COUNT, 5);
    assert_eq!(fill_a_vector(&0u64).len(), FILL_COUNT);
}
