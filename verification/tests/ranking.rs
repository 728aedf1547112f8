use largest_dirs::rank::{rank, SizeResult};

fn result(path: &str, size: u64) -> SizeResult {
    SizeResult::new(path.to_string(), size)
}

fn paths(results: &Vec<SizeResult>) -> Vec<String> {
    results.iter().map(|r| r.path.clone()).collect()
}

#[test]
fn nothing_ranks_to_nothing() {
    let ranked = rank(&Vec::new());
    assert!(ranked.is_empty());
}

#[test]
fn one_result_ranks_to_itself() {
    let ranked = rank(&vec![result("only", 7)]);
    assert_eq!(ranked, vec![result("only", 7)]);
}

#[test]
fn larger_sizes_come_first() {
    let ranked = rank(&vec![result("a", 500), result("b", 2097152), result("c", 0)]);
    assert_eq!(ranked, vec![result("b", 2097152), result("a", 500), result("c", 0)]);
}

#[test]
fn equal_sizes_keep_their_order() {
    let collected = vec![
        result("first", 10),
        result("big", 99),
        result("second", 10),
        result("third", 10),
        result("small", 1),
        result("fourth", 10),
    ];
    let ranked = rank(&collected);
    assert_eq!(paths(&ranked), vec!["big", "first", "second", "third", "fourth", "small"]);
}

#[test]
fn the_collection_is_left_as_it_was() {
    let collected = vec![result("x", 1), result("y", 2)];
    let ranked = rank(&collected);
    assert_eq!(collected, vec![result("x", 1), result("y", 2)]);
    assert_eq!(ranked, vec![result("y", 2), result("x", 1)]);
}

#[test]
fn ranking_twice_changes_nothing() {
    let collected = vec![result("p", 3), result("q", 3), result("r", 8), result("s", 0)];
    let once = rank(&collected);
    let twice = rank(&once);
    assert_eq!(once, twice);
}

#[test]
fn order_among_different_sizes_does_not_show() {
    let one = vec![result("a", 5), result("b", 9), result("c", 1)];
    let other = vec![result("c", 1), result("a", 5), result("b", 9)];
    assert_eq!(rank(&one), rank(&other));
}

#[test]
fn order_among_equal_sizes_shows() {
    let one = vec![result("a", 5), result("b", 5)];
    let other = vec![result("b", 5), result("a", 5)];
    assert_eq!(paths(&rank(&one)), vec!["a", "b"]);
    assert_eq!(paths(&rank(&other)), vec!["b", "a"]);
}

#[test]
fn extreme_sizes() {
    let ranked = rank(&vec![result("zero", 0), result("max", u64::MAX), result("one", 1)]);
    assert_eq!(paths(&ranked), vec!["max", "one", "zero"]);
}

#[test]
fn agrees_with_a_stable_sort() {
    let mut seed: u64 = 12345;
    let mut length: usize = 0;
    while length < 200 {
        let mut collected: Vec<SizeResult> = Vec::new();
        let mut i: usize = 0;
        while i < length {
            seed = seed.wrapping_mul(6364136223846793005).wrapping_add(1442695040888963407);
            // Few distinct sizes, so that many results tie.
            let size = (seed >> 33) % 7;
            collected.push(SizeResult::new(format!("dir{}", i), size));
            i += 1;
        }
        let mut expected: Vec<SizeResult> = collected.clone();
        expected.sort_by_key(|r| u64::MAX - r.size);
        assert_eq!(rank(&collected), expected);
        length += 1;
    }
}

#[test]
fn a_clone_is_equal() {
    let first = result("some/dir", 42);
    let copy = first.clone();
    assert_eq!(copy, first);
    assert_eq!(copy.path, "some/dir");
    assert_eq!(copy.size, 42);
}

#[test]
fn ranks_a_large_collection() {
    let mut collected: Vec<SizeResult> = Vec::new();
    let mut seed: u64 = 99;
    let mut i: usize = 0;
    while i < 100000 {
        seed = seed.wrapping_mul(6364136223846793005).wrapping_add(1442695040888963407);
        collected.push(SizeResult::new(format!("d/{}", i), seed >> 44));
        i += 1;
    }
    let ranked = rank(&collected);
    assert_eq!(ranked.len(), collected.len());
    let mut k: usize = 1;
    while k < ranked.len() {
        assert!(ranked[k - 1].size >= ranked[k].size);
        k += 1;
    }
    let mut expected: Vec<SizeResult> = collected.clone();
    expected.sort_by_key(|r| u64::MAX - r.size);
    assert_eq!(ranked, expected);
}
