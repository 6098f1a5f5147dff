use lazy_combinations::{LazyPermutationGenerator, Permutations};

#[test]
fn permutations_order() {
    let mut permutations: Permutations<i32> = Permutations::new(2);
    for x in 1..4 {
        permutations.push(x);
    }
    assert_eq!(permutations.next(), Some(vec![1, 2]));
    assert_eq!(permutations.next(), Some(vec![2, 1]));
    assert_eq!(permutations.next(), Some(vec![1, 3]));
    assert_eq!(permutations.next(), Some(vec![3, 1]));
    assert_eq!(permutations.next(), Some(vec![2, 3]));
    assert_eq!(permutations.next(), Some(vec![3, 2]));
    assert_eq!(permutations.next(), None);
    assert_eq!(permutations.next(), None);
}

#[test]
fn gen_order() {
    let mut gen = LazyPermutationGenerator::new(3);
    assert_eq!(gen.indices(), &vec![0, 1, 2]);
    assert!(!gen.is_done());
    gen.step();
    assert_eq!(gen.indices(), &vec![1, 0, 2]);
    assert!(!gen.is_done());
    gen.step();
    assert_eq!(gen.indices(), &vec![2, 0, 1]);
    assert!(!gen.is_done());
    gen.step();
    assert_eq!(gen.indices(), &vec![0, 2, 1]);
    assert!(!gen.is_done());
    gen.step();
    assert_eq!(gen.indices(), &vec![1, 2, 0]);
    assert!(!gen.is_done());
    gen.step();
    assert_eq!(gen.indices(), &vec![2, 1, 0]);
    assert!(!gen.is_done());
    gen.step();
    assert!(gen.is_done());
    gen.step();
    assert!(gen.is_done());
}

#[test]
fn permutations_none_on_size_too_big() {
    let mut permutations: Permutations<i32> = Permutations::new(2);
    permutations.push(1);
    assert_eq!(permutations.next(), None);
    assert_eq!(permutations.next(), None);
}

#[test]
fn permutations_empty_arr_on_n_zero() {
    let mut permutations: Permutations<i32> = Permutations::new(0);
    for x in 1..5 {
        permutations.push(x);
    }
    assert_eq!(permutations.next(), Some(vec![]));
    assert_eq!(permutations.next(), None);
    assert_eq!(permutations.next(), None);
}

#[test]
fn permutations_resume_after_none() {
    let items = [1, 2, 3];
    let mut fed: usize = 0;
    let mut permutations: Permutations<i32> = Permutations::new(2);

    assert_eq!(permutations.next(), None);

    permutations.push(items[fed]);
    fed += 1;
    assert_eq!(permutations.next(), None);

    permutations.push(items[fed]);
    fed += 1;
    assert_eq!(permutations.next(), Some(vec![1, 2]));
    assert_eq!(permutations.next(), Some(vec![2, 1]));
    assert_eq!(permutations.next(), None);

    permutations.push(items[fed]);
    assert_eq!(permutations.next(), Some(vec![1, 3]));
    assert_eq!(permutations.next(), Some(vec![3, 1]));
    assert_eq!(permutations.next(), Some(vec![2, 3]));
    assert_eq!(permutations.next(), Some(vec![3, 2]));
    assert_eq!(permutations.next(), None);
    assert_eq!(permutations.next(), None);
}

#[test]
fn permutations_duplicate_values_positional() {
    let mut permutations: Permutations<i32> = Permutations::new(2);
    permutations.push(2);
    permutations.push(2);
    assert_eq!(permutations.next(), Some(vec![2, 2]));
    assert_eq!(permutations.next(), Some(vec![2, 2]));
    assert_eq!(permutations.next(), None);
}

#[test]
fn permutations_count_and_grouping() {
    let mut permutations: Permutations<u32> = Permutations::new(2);
    for x in 0..4 {
        permutations.push(x);
    }
    let mut seen: Vec<Vec<u32>> = Vec::new();
    while let Some(t) = permutations.next() {
        assert_eq!(t.len(), 2);
        assert!(!seen.contains(&t));
        seen.push(t);
    }
    // C(4,2) * 2! orderings, grouped two by two over the same pair
    assert_eq!(seen.len(), 12);
    for pair in seen.chunks(2) {
        assert_eq!(pair[0][0], pair[1][1]);
        assert_eq!(pair[0][1], pair[1][0]);
    }
}

#[test]
fn gen_identity_first_for_every_size() {
    for n in 0..6 {
        let gen = LazyPermutationGenerator::new(n);
        let expected: Vec<usize> = (0..n).collect();
        assert_eq!(gen.indices(), &expected);
        assert!(!gen.is_done());
    }
}
