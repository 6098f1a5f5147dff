use lazy_combinations::{SliceCombinations, SlicePermutations};

#[test]
fn slice_combinations_order() {
    let items = [1, 2, 3, 4, 5];
    let mut combinations = SliceCombinations::new(&items, 3);
    assert_eq!(combinations.next(), Some(vec![&1, &2, &3]));
    assert_eq!(combinations.next(), Some(vec![&1, &2, &4]));
    assert_eq!(combinations.next(), Some(vec![&1, &3, &4]));
    assert_eq!(combinations.next(), Some(vec![&2, &3, &4]));
    assert_eq!(combinations.next(), Some(vec![&1, &2, &5]));
    assert_eq!(combinations.next(), Some(vec![&1, &3, &5]));
    assert_eq!(combinations.next(), Some(vec![&2, &3, &5]));
    assert_eq!(combinations.next(), Some(vec![&1, &4, &5]));
    assert_eq!(combinations.next(), Some(vec![&2, &4, &5]));
    assert_eq!(combinations.next(), Some(vec![&3, &4, &5]));
    assert_eq!(combinations.next(), None);
    assert_eq!(combinations.next(), None);
}

#[test]
fn slice_combinations_none_on_size_too_big() {
    let items = [1];
    let mut combinations = SliceCombinations::new(&items, 2);
    assert_eq!(combinations.next(), None);
    assert_eq!(combinations.next(), None);
}

#[test]
fn slice_combinations_empty_arr_on_n_zero() {
    let items = [1, 2, 3, 4];
    let mut combinations = SliceCombinations::new(&items, 0);
    assert_eq!(combinations.next(), Some(Vec::<&i32>::new()));
    assert_eq!(combinations.next(), None);
    assert_eq!(combinations.next(), None);
}

#[test]
fn slice_permutations_order() {
    let items = [1, 2, 3];
    let mut permutations = SlicePermutations::new(&items, 2);
    assert_eq!(permutations.next(), Some(vec![&1, &2]));
    assert_eq!(permutations.next(), Some(vec![&2, &1]));
    assert_eq!(permutations.next(), Some(vec![&1, &3]));
    assert_eq!(permutations.next(), Some(vec![&3, &1]));
    assert_eq!(permutations.next(), Some(vec![&2, &3]));
    assert_eq!(permutations.next(), Some(vec![&3, &2]));
    assert_eq!(permutations.next(), None);
    assert_eq!(permutations.next(), None);
}

#[test]
fn slice_permutations_none_on_size_too_big() {
    let items = [1];
    let mut permutations = SlicePermutations::new(&items, 2);
    assert_eq!(permutations.next(), None);
    assert_eq!(permutations.next(), None);
}

#[test]
fn slice_permutations_empty_arr_on_n_zero() {
    let items = [1, 2, 3, 4];
    let mut permutations = SlicePermutations::new(&items, 0);
    assert_eq!(permutations.next(), Some(Vec::<&i32>::new()));
    assert_eq!(permutations.next(), None);
    assert_eq!(permutations.next(), None);
}

#[test]
fn slice_combinations_duplicate_values_positional() {
    let items = [2, 2];
    let mut combinations = SliceCombinations::new(&items, 2);
    assert_eq!(combinations.next(), Some(vec![&2, &2]));
    assert_eq!(combinations.next(), None);
}

#[test]
fn slice_permutations_full_width_all_orderings() {
    let items = [1, 2, 3];
    let mut permutations = SlicePermutations::new(&items, 3);
    let mut seen: Vec<Vec<&i32>> = Vec::new();
    while let Some(t) = permutations.next() {
        assert_eq!(t.len(), 3);
        assert!(!seen.contains(&t));
        seen.push(t);
    }
    assert_eq!(seen.len(), 6);
    assert_eq!(seen[0], vec![&1, &2, &3]);
}
