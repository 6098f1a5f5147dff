use lazy_combinations::Combinations;

#[test]
fn combinations_order() {
    let mut combinations: Combinations<i32> = Combinations::new(3);
    for x in 1..6 {
        combinations.push(x);
    }
    assert_eq!(combinations.next(), Some(vec![1, 2, 3]));
    assert_eq!(combinations.next(), Some(vec![1, 2, 4]));
    assert_eq!(combinations.next(), Some(vec![1, 3, 4]));
    assert_eq!(combinations.next(), Some(vec![2, 3, 4]));
    assert_eq!(combinations.next(), Some(vec![1, 2, 5]));
    assert_eq!(combinations.next(), Some(vec![1, 3, 5]));
    assert_eq!(combinations.next(), Some(vec![2, 3, 5]));
    assert_eq!(combinations.next(), Some(vec![1, 4, 5]));
    assert_eq!(combinations.next(), Some(vec![2, 4, 5]));
    assert_eq!(combinations.next(), Some(vec![3, 4, 5]));
    assert_eq!(combinations.next(), None);
    assert_eq!(combinations.next(), None);
}

#[test]
fn combinations_none_on_size_too_big() {
    let mut combinations: Combinations<i32> = Combinations::new(2);
    combinations.push(1);
    assert_eq!(combinations.next(), None);
    assert_eq!(combinations.next(), None);
}

#[test]
fn combinations_empty_arr_on_n_zero() {
    let mut combinations: Combinations<i32> = Combinations::new(0);
    for x in 1..5 {
        combinations.push(x);
    }
    assert_eq!(combinations.next(), Some(vec![]));
    assert_eq!(combinations.next(), None);
    assert_eq!(combinations.next(), None);
}

#[test]
fn combinations_resume_after_none() {
    let items = [1, 2, 3, 4];
    let mut fed: usize = 0;
    let mut combinations: Combinations<i32> = Combinations::new(3);

    assert_eq!(combinations.next(), None);

    combinations.push(items[fed]);
    fed += 1;
    assert_eq!(combinations.next(), None);

    combinations.push(items[fed]);
    fed += 1;
    assert_eq!(combinations.next(), None);

    combinations.push(items[fed]);
    fed += 1;
    assert_eq!(combinations.next(), Some(vec![1, 2, 3]));
    assert_eq!(combinations.next(), None);

    combinations.push(items[fed]);
    assert_eq!(combinations.next(), Some(vec![1, 2, 4]));
    assert_eq!(combinations.next(), Some(vec![1, 3, 4]));
    assert_eq!(combinations.next(), Some(vec![2, 3, 4]));
    assert_eq!(combinations.next(), None);
    assert_eq!(combinations.next(), None);
}

#[test]
fn combinations_duplicate_values_positional() {
    let mut combinations: Combinations<i32> = Combinations::new(2);
    combinations.push(1);
    combinations.push(2);
    combinations.push(2);
    assert_eq!(combinations.next(), Some(vec![1, 2]));
    assert_eq!(combinations.next(), Some(vec![1, 2]));
    assert_eq!(combinations.next(), Some(vec![2, 2]));
    assert_eq!(combinations.next(), None);
}

#[test]
fn combinations_count_and_distinct() {
    let mut combinations: Combinations<u32> = Combinations::new(2);
    for x in 0..4 {
        combinations.push(x);
    }
    let mut seen: Vec<Vec<u32>> = Vec::new();
    while let Some(t) = combinations.next() {
        assert_eq!(t.len(), 2);
        assert!(t[0] < t[1]);
        assert!(!seen.contains(&t));
        seen.push(t);
    }
    assert_eq!(seen.len(), 6);
}

#[test]
fn combinations_missing_items_counts_shortfall() {
    let mut combinations: Combinations<i32> = Combinations::new(3);
    assert_eq!(combinations.missing_items(), 3);
    combinations.push(7);
    assert_eq!(combinations.missing_items(), 2);
    combinations.push(8);
    combinations.push(9);
    assert_eq!(combinations.missing_items(), 0);
    assert_eq!(combinations.next(), Some(vec![7, 8, 9]));
    assert_eq!(combinations.missing_items(), 1);
}

#[test]
fn comb_gen_order() {
    let mut gen = lazy_combinations::LazyCombinationGenerator::new(2);
    assert_eq!(gen.indices(), &vec![0, 1]);
    assert_eq!(gen.max_index(), Some(1));
    assert!(gen.is_done(1));
    assert!(!gen.is_done(2));
    gen.step();
    assert_eq!(gen.indices(), &vec![0, 2]);
    gen.step();
    assert_eq!(gen.indices(), &vec![1, 2]);
    gen.step();
    assert_eq!(gen.indices(), &vec![0, 3]);
    assert_eq!(gen.max_index(), Some(3));
    assert!(gen.is_done(3));
    assert!(!gen.is_done(4));
}

#[test]
fn comb_gen_width_zero_done_after_step() {
    let mut gen = lazy_combinations::LazyCombinationGenerator::new(0);
    assert_eq!(gen.indices(), &Vec::<usize>::new());
    assert_eq!(gen.max_index(), None);
    assert!(!gen.is_done(0));
    gen.step();
    assert!(gen.is_done(0));
    assert!(gen.is_done(10));
}
