use rand::Rng;
use sorting::sorts::merge::merge_sort_top_down as merge_sort_top_down_classic;
use sorting::{
    bubble_sort, heap_sort, insertion_sort, is_sorted, merge_sort_top_down, merge_sorted_results,
    partition_for_workers, quick_sort, selection_sort, SortError,
};

const BASIC_SORT_RAND_VEC_LEN: u32 = 4000;
const ADVANCED_SORT_RAND_VEC_LEN: u32 = 40000;

/// Generates a random vector of `i32`s.
fn generate_rand_vec(num_elements: u32) -> Vec<i32> {
    let mut rng = rand::thread_rng();
    let mut output = vec![];
    for _ in 0..num_elements {
        output.push(rng.gen_range(i32::MIN..=i32::MAX));
    }

    output
}

#[test]
fn insertion_sort_test() {
    let ascending_sort_closure = |num1: &i32, num2: &i32| -> bool { num1 <= num2 };
    let descending_sort_closure = |num1: &i32, num2: &i32| -> bool { num1 >= num2 };
    // create a list of elements
    let mut list = vec![4, 5, 2, 1, 3];
    // sort using a closure to sort elements in ascending order
    insertion_sort(&mut list, ascending_sort_closure);
    assert_eq!(vec![1, 2, 3, 4, 5], list);

    let mut list: Vec<i32> = vec![];
    insertion_sort(&mut list, ascending_sort_closure);
    let test: Vec<i32> = vec![];
    assert_eq!(test, list);

    let mut list: Vec<i32> = vec![1];
    insertion_sort(&mut list, ascending_sort_closure);
    assert_eq!(vec![1], list);

    // descending order sort
    let mut list: Vec<i32> = vec![4, 5, 2, 1, 3];
    insertion_sort(&mut list, descending_sort_closure);
    assert_eq!(vec![5, 4, 3, 2, 1], list);

    let mut list = generate_rand_vec(BASIC_SORT_RAND_VEC_LEN);
    insertion_sort(&mut list, ascending_sort_closure);
    assert_eq!(true, is_sorted(&list, ascending_sort_closure));
}

#[test]
fn bubble_sort_test() {
    let ascending_sort_closure = |num1: &i32, num2: &i32| -> bool { num1 <= num2 };
    let descending_sort_closure = |num1: &i32, num2: &i32| -> bool { num1 >= num2 };
    // create a list of elements
    let mut list = vec![4, 5, 2, 1, 3];
    // sort using a closure to sort elements in ascending order
    bubble_sort(&mut list, ascending_sort_closure);
    assert_eq!(vec![1, 2, 3, 4, 5], list);

    let mut list: Vec<i32> = vec![];
    bubble_sort(&mut list, ascending_sort_closure);
    let test: Vec<i32> = vec![];
    assert_eq!(test, list);

    let mut list: Vec<i32> = vec![1];
    bubble_sort(&mut list, ascending_sort_closure);
    assert_eq!(vec![1], list);

    // descending order sort
    let mut list: Vec<i32> = vec![4, 5, 2, 1, 3];
    bubble_sort(&mut list, descending_sort_closure);
    assert_eq!(vec![5, 4, 3, 2, 1], list);

    let mut list = generate_rand_vec(BASIC_SORT_RAND_VEC_LEN);
    bubble_sort(&mut list, ascending_sort_closure);
    assert_eq!(true, is_sorted(&list, ascending_sort_closure));
}

#[test]
fn selection_sort_test() {
    let ascending_sort_closure = |num1: &i32, num2: &i32| -> bool { num1 <= num2 };
    let descending_sort_closure = |num1: &i32, num2: &i32| -> bool { num1 >= num2 };
    // create a list of elements
    let mut list = vec![4, 5, 2, 1, 3];
    // sort using a closure to sort elements in ascending order
    selection_sort(&mut list, ascending_sort_closure);
    assert_eq!(vec![1, 2, 3, 4, 5], list);

    let mut list: Vec<i32> = vec![];
    selection_sort(&mut list, ascending_sort_closure);
    let test: Vec<i32> = vec![];
    assert_eq!(test, list);

    let mut list: Vec<i32> = vec![1];
    selection_sort(&mut list, ascending_sort_closure);
    assert_eq!(vec![1], list);

    // descending order sort
    let mut list: Vec<i32> = vec![4, 5, 2, 1, 3];
    selection_sort(&mut list, descending_sort_closure);
    assert_eq!(vec![5, 4, 3, 2, 1], list);

    let mut list = generate_rand_vec(BASIC_SORT_RAND_VEC_LEN);
    selection_sort(&mut list, ascending_sort_closure);
    assert_eq!(true, is_sorted(&list, ascending_sort_closure));
}

#[test]
fn merge_sort_test() {
    // NOTE: to prevent the checks from failing upon some tests, doing `<=` or
    // `>=` should be used in cases where there are more than one of the same
    // number
    let ascending_sort_closure = |num1: &i32, num2: &i32| -> bool { num1 <= num2 };
    let descending_sort_closure = |num1: &i32, num2: &i32| -> bool { num1 >= num2 };

    // create a list of elements
    let mut list = vec![4, 5, 2, 1, 3];
    // sort using a closure to sort elements in ascending order
    list = merge_sort_top_down(&list, &ascending_sort_closure);
    assert_eq!(vec![1, 2, 3, 4, 5], list);

    let mut list: Vec<i32> = vec![];
    list = merge_sort_top_down(&list, &ascending_sort_closure);
    let test: Vec<i32> = vec![];
    assert_eq!(test, list);

    let mut list: Vec<i32> = vec![1];
    list = merge_sort_top_down(&list, &ascending_sort_closure);
    assert_eq!(vec![1], list);

    // descending order sort
    let mut list: Vec<i32> = vec![4, 5, 2, 1, 3];
    list = merge_sort_top_down(&list, &descending_sort_closure);
    assert_eq!(vec![5, 4, 3, 2, 1], list);

    // since this algorithm is faster than the others, let's push it a little
    let mut list = generate_rand_vec(ADVANCED_SORT_RAND_VEC_LEN);
    list = merge_sort_top_down(&list, &ascending_sort_closure);
    assert_eq!(true, is_sorted(&list, ascending_sort_closure));
}

#[test]
fn quick_sort_test() {
    let ascending_sort_closure = Box::new(|num1: &i32, num2: &i32| -> bool { num1 < num2 });
    let ascending_is_eq_closure = Box::new(|num1: &i32, num2: &i32| -> bool { num1 <= num2 });
    let descending_sort_closure = Box::new(|num1: &i32, num2: &i32| -> bool { num1 > num2 });
    let descending_is_eq_closure = Box::new(|num1: &i32, num2: &i32| -> bool { num1 >= num2 });

    // create a list of elements
    let mut list = vec![4, 5, 2, 1, 3];
    // sort using a closure to sort elements in ascending order
    list = quick_sort(list, &ascending_sort_closure);
    assert_eq!(vec![1, 2, 3, 4, 5], list);

    let mut list: Vec<i32> = vec![];
    list = quick_sort(list, &ascending_sort_closure);
    let test: Vec<i32> = vec![];
    assert_eq!(test, list);

    let mut list: Vec<i32> = vec![1];
    list = quick_sort(list, &ascending_sort_closure);
    assert_eq!(vec![1], list);

    // descending order sort
    let mut list: Vec<i32> = vec![4, 5, 2, 1, 3];
    list = quick_sort(list, &descending_sort_closure);
    assert_eq!(vec![5, 4, 3, 2, 1], list);

    let mut list = generate_rand_vec(ADVANCED_SORT_RAND_VEC_LEN);
    list = quick_sort(list, &ascending_sort_closure);
    assert_eq!(true, is_sorted(&list, &*ascending_is_eq_closure));

    let mut list = generate_rand_vec(ADVANCED_SORT_RAND_VEC_LEN);
    list = quick_sort(list, &descending_sort_closure);
    assert_eq!(true, is_sorted(&list, &*descending_is_eq_closure));
}

#[test]
fn heap_sort_test() {
    let ascending_sort_closure = Box::new(|num1: &i32, num2: &i32| -> bool { num1 < num2 });
    let ascending_is_eq_closure = Box::new(|num1: &i32, num2: &i32| -> bool { num1 <= num2 });
    let descending_sort_closure = Box::new(|num1: &i32, num2: &i32| -> bool { num1 > num2 });
    let descending_is_eq_closure = Box::new(|num1: &i32, num2: &i32| -> bool { num1 >= num2 });

    // create a list of elements
    let mut list = vec![4, 5, 2, 1, 3];
    // sort using a closure to sort elements in ascending order
    list = heap_sort(list, &ascending_sort_closure);
    assert_eq!(vec![1, 2, 3, 4, 5], list);

    let mut list: Vec<i32> = vec![];
    list = heap_sort(list, &ascending_sort_closure);
    let test: Vec<i32> = vec![];
    assert_eq!(test, list);

    let mut list: Vec<i32> = vec![1];
    list = heap_sort(list, &ascending_sort_closure);
    assert_eq!(vec![1], list);

    // descending order sort
    let mut list: Vec<i32> = vec![4, 5, 2, 1, 3];
    list = heap_sort(list, &descending_sort_closure);
    assert_eq!(vec![5, 4, 3, 2, 1], list);

    let mut list = generate_rand_vec(ADVANCED_SORT_RAND_VEC_LEN);
    list = heap_sort(list, &ascending_sort_closure);
    assert_eq!(true, is_sorted(&list, &*ascending_is_eq_closure));

    let mut list = generate_rand_vec(ADVANCED_SORT_RAND_VEC_LEN);
    list = heap_sort(list, &descending_sort_closure);
    assert_eq!(true, is_sorted(&list, &*descending_is_eq_closure));
}

#[test]
fn merge_sort_alias_test() {
    // the classic entry point sorts exactly as the canonical one
    let ascending_sort_closure = |num1: &i32, num2: &i32| -> bool { num1 <= num2 };
    let list = vec![4, 5, 2, 1, 3];
    assert_eq!(
        merge_sort_top_down_classic(&list, &ascending_sort_closure),
        vec![1, 2, 3, 4, 5]
    );
}

#[test]
fn worker_partition_test() {
    // the chunks handed to the workers cover the input exactly, with the
    // remainder on the last chunk
    let list: Vec<i32> = vec![10, 20, 30, 40, 50, 60, 70];
    let chunks = partition_for_workers(&list, 3).unwrap();
    assert_eq!(chunks.len(), 3);
    assert_eq!(chunks[0], vec![10, 20]);
    assert_eq!(chunks[1], vec![30, 40]);
    assert_eq!(chunks[2], vec![50, 60, 70]);

    // more workers than elements: empty chunks up front, everything on the
    // last chunk
    let chunks = partition_for_workers(&vec![1, 2], 4).unwrap();
    assert_eq!(chunks.len(), 4);
    assert_eq!(chunks[0], Vec::<i32>::new());
    assert_eq!(chunks[3], vec![1, 2]);
}

#[test]
fn worker_partition_zero_threads_test() {
    // a zero worker count is rejected before any work is dispatched
    let list: Vec<i32> = vec![3, 1, 2];
    assert_eq!(
        partition_for_workers(&list, 0),
        Err(SortError::InvalidConfiguration)
    );
}

#[test]
fn partitioned_merge_sort_test() {
    // the parallel merge sort's data path: split into chunks, sort each with
    // the sequential merge sort, then fold the sorted chunks together
    let closure = |num1: &i32, num2: &i32| -> bool { num1 <= num2 };
    let list = generate_rand_vec(400000);
    let mut expected = list.clone();
    expected.sort();

    let chunks = partition_for_workers(&list, 8).unwrap();
    let sorted_chunks: Vec<Vec<i32>> = chunks
        .iter()
        .map(|chunk| merge_sort_top_down(chunk, &closure))
        .collect();
    let merged = merge_sorted_results(&sorted_chunks, &closure);

    assert_eq!(true, is_sorted(&merged, closure));
    assert_eq!(expected, merged);
}

#[test]
fn quick_sort_cutoff_boundary_test() {
    // 99 elements stay below the cutoff and go through insertion sort;
    // 100 elements enter the partitioning path; both must come out sorted
    let ascending_sort_closure = |num1: &i32, num2: &i32| -> bool { num1 < num2 };

    let below: Vec<i32> = (0..99).rev().collect();
    let sorted_below = quick_sort(below, &ascending_sort_closure);
    let expected_below: Vec<i32> = (0..99).collect();
    assert_eq!(expected_below, sorted_below);

    let at: Vec<i32> = (0..100).rev().collect();
    let sorted_at = quick_sort(at, &ascending_sort_closure);
    let expected_at: Vec<i32> = (0..100).collect();
    assert_eq!(expected_at, sorted_at);
}

#[test]
fn sort_idempotence_test() {
    // sorting an already-sorted sequence returns it unchanged
    let ascending_sort_closure = |num1: &i32, num2: &i32| -> bool { num1 <= num2 };
    let strict_closure = |num1: &i32, num2: &i32| -> bool { num1 < num2 };
    let sorted_list = vec![1, 2, 2, 3, 5, 8, 8, 13];

    let mut list = sorted_list.clone();
    insertion_sort(&mut list, ascending_sort_closure);
    assert_eq!(sorted_list, list);

    let mut list = sorted_list.clone();
    bubble_sort(&mut list, ascending_sort_closure);
    assert_eq!(sorted_list, list);

    let mut list = sorted_list.clone();
    selection_sort(&mut list, ascending_sort_closure);
    assert_eq!(sorted_list, list);

    assert_eq!(sorted_list, merge_sort_top_down(&sorted_list, &ascending_sort_closure));
    assert_eq!(sorted_list, quick_sort(sorted_list.clone(), &strict_closure));
    assert_eq!(sorted_list, heap_sort(sorted_list.clone(), &strict_closure));
}

#[test]
fn cross_algorithm_agreement_test() {
    // one fixed random sequence, one strict comparator: every algorithm must
    // produce the very same sorted sequence
    let strict_closure = |num1: &i32, num2: &i32| -> bool { num1 < num2 };
    let check_closure = |num1: &i32, num2: &i32| -> bool { num1 <= num2 };
    let list = generate_rand_vec(BASIC_SORT_RAND_VEC_LEN);

    let mut from_insertion = list.clone();
    insertion_sort(&mut from_insertion, strict_closure);
    let from_merge = merge_sort_top_down(&list, &strict_closure);
    let from_quick = quick_sort(list.clone(), &strict_closure);
    let from_heap = heap_sort(list.clone(), &strict_closure);
    let chunks = partition_for_workers(&list, 8).unwrap();
    let sorted_chunks: Vec<Vec<i32>> = chunks
        .iter()
        .map(|chunk| merge_sort_top_down(chunk, &strict_closure))
        .collect();
    let from_partitioned = merge_sorted_results(&sorted_chunks, &strict_closure);

    assert_eq!(true, is_sorted(&from_insertion, check_closure));
    assert_eq!(from_insertion, from_merge);
    assert_eq!(from_insertion, from_quick);
    assert_eq!(from_insertion, from_heap);
    assert_eq!(from_insertion, from_partitioned);
}

#[test]
fn merge_sort_stability_test() {
    // tied elements keep their input order: the leftmost source wins ties
    let by_key = |a: &(i32, i32), b: &(i32, i32)| -> bool { a.0 <= b.0 };
    let list = vec![(1, 0), (0, 1), (1, 2), (0, 3), (1, 4)];
    let sorted = merge_sort_top_down(&list, &by_key);
    assert_eq!(vec![(0, 1), (0, 3), (1, 0), (1, 2), (1, 4)], sorted);

    let mut list = vec![(1, 0), (0, 1), (1, 2), (0, 3), (1, 4)];
    insertion_sort(&mut list, by_key);
    assert_eq!(vec![(0, 1), (0, 3), (1, 0), (1, 2), (1, 4)], list);

    let chunks = partition_for_workers(&vec![(1, 0), (0, 1), (1, 2), (0, 3)], 2).unwrap();
    let sorted_chunks: Vec<Vec<(i32, i32)>> = chunks
        .iter()
        .map(|chunk| merge_sort_top_down(chunk, &by_key))
        .collect();
    let merged = merge_sorted_results(&sorted_chunks, &by_key);
    assert_eq!(vec![(0, 1), (0, 3), (1, 0), (1, 2)], merged);
}

#[test]
fn is_sorted_test() {
    let ascending_sort_closure = |num1: &i32, num2: &i32| -> bool { num1 <= num2 };
    assert_eq!(true, is_sorted(&vec![1, 2, 3], ascending_sort_closure));
    assert_eq!(true, is_sorted(&vec![7, 7, 7], ascending_sort_closure));
    assert_eq!(false, is_sorted(&vec![2, 1], ascending_sort_closure));
    assert_eq!(true, is_sorted(&Vec::<i32>::new(), ascending_sort_closure));
    assert_eq!(true, is_sorted(&vec![5], ascending_sort_closure));
}
