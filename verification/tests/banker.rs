use rcore::banker::banker_is_safe;

#[test]
fn textbook_safe_state() {
    // Five threads, three resources; the safe order is 1, 3, 4, 0, 2.
    let tasks: Vec<Option<u8>> = vec![Some(0); 5];
    let work = vec![3, 3, 2];
    let allocation = vec![vec![0, 1, 0], vec![2, 0, 0], vec![3, 0, 2], vec![2, 1, 1], vec![0, 0, 2]];
    let need = vec![vec![7, 4, 3], vec![1, 2, 2], vec![6, 0, 0], vec![0, 1, 1], vec![4, 3, 1]];
    assert!(banker_is_safe(&tasks, &work, &need, &allocation));
}

#[test]
fn textbook_unsafe_state() {
    let tasks: Vec<Option<u8>> = vec![Some(0); 5];
    let work = vec![0, 2, 0];
    let allocation = vec![vec![0, 1, 0], vec![3, 0, 2], vec![3, 0, 2], vec![2, 1, 1], vec![0, 0, 2]];
    let need = vec![vec![7, 4, 3], vec![0, 2, 0], vec![6, 0, 0], vec![0, 1, 1], vec![4, 3, 1]];
    // Threads 1, 3 and 4 can finish, leaving [5, 3, 5] available; thread 0
    // needs 7 of resource 0 and thread 2 needs 6, so both are stuck.
    assert!(!banker_is_safe(&tasks, &work, &need, &allocation));
}

#[test]
fn order_of_threads_does_not_matter() {
    // Thread 0 can only run after thread 1 has given back what it holds.
    let tasks = vec![Some(1u8), Some(2u8)];
    let work = vec![1];
    let allocation = vec![vec![0], vec![1]];
    let need = vec![vec![2], vec![1]];
    assert!(banker_is_safe(&tasks, &work, &need, &allocation));
}

#[test]
fn no_live_threads_is_safe() {
    let tasks: Vec<Option<u8>> = vec![None, None];
    let work = vec![0];
    let allocation = vec![vec![0], vec![0]];
    let need = vec![vec![5], vec![9]];
    assert!(banker_is_safe(&tasks, &work, &need, &allocation));
}

#[test]
fn no_resources_is_safe() {
    let tasks = vec![Some(1u8)];
    let work: Vec<usize> = vec![];
    let allocation = vec![vec![]];
    let need = vec![vec![]];
    assert!(banker_is_safe(&tasks, &work, &need, &allocation));
}

#[test]
fn more_available_keeps_safe() {
    let tasks = vec![Some(1u8), Some(2u8)];
    let allocation = vec![vec![0], vec![1]];
    let need = vec![vec![2], vec![1]];
    assert!(banker_is_safe(&tasks, &vec![1], &need, &allocation));
    assert!(banker_is_safe(&tasks, &vec![4], &need, &allocation));
    assert!(banker_is_safe(&tasks, &vec![1], &vec![vec![1], vec![0]], &allocation));
    assert!(!banker_is_safe(&tasks, &vec![0], &need, &allocation));
}

#[test]
fn renumbering_threads_keeps_answer() {
    let tasks = vec![Some(1u8), Some(2u8), None];
    let allocation = vec![vec![0, 1], vec![1, 0], vec![0, 0]];
    let need = vec![vec![2, 0], vec![0, 1], vec![9, 9]];
    let work = vec![1, 0];
    let a = banker_is_safe(&tasks, &work, &need, &allocation);
    let tasks2 = vec![None, Some(2u8), Some(1u8)];
    let allocation2 = vec![vec![0, 0], vec![1, 0], vec![0, 1]];
    let need2 = vec![vec![9, 9], vec![0, 1], vec![2, 0]];
    assert_eq!(banker_is_safe(&tasks2, &work, &need2, &allocation2), a);
}
