use lucq::allocator::{align, gen_align_vec, gen_move_vec, move_plan};

fn apply(ids: &[i32], plan: &[(i32, i32)]) -> Vec<i32> {
    let mut v = ids.to_vec();
    for &(from, to) in plan {
        assert!(v.contains(&from), "rename of a missing id {}", from);
        assert!(!v.contains(&to), "rename onto an id in use {}", to);
        for x in v.iter_mut() {
            if *x == from {
                *x = to;
            }
        }
    }
    v
}

#[test]
fn test_move_jobs() {
    let id_vec = vec![7, 8, 10, 12];
    let (id_vec_1, id_vec_2) = gen_move_vec(&id_vec);
    println!("{:?}", id_vec_1);
    println!("{:?}", id_vec_2);
    assert_eq!(id_vec_1, vec![7, 8]);
    assert_eq!(id_vec_2, vec![8, 9]);
}

#[test]
fn shift_touches_only_the_leading_run() {
    assert_eq!(move_plan(&[7, 8, 10, 12]), vec![(8, 9), (7, 8)]);
}

#[test]
fn shift_renames_a_whole_consecutive_run() {
    assert_eq!(move_plan(&[5, 6, 7]), vec![(7, 8), (6, 7), (5, 6)]);
    let (olds, news) = gen_move_vec(&[5, 6, 7]);
    assert_eq!(olds, vec![5, 6, 7]);
    assert_eq!(news, vec![6, 7, 8]);
}

#[test]
fn shift_of_nothing_is_empty() {
    let (olds, news) = gen_move_vec(&[]);
    assert!(olds.is_empty() && news.is_empty());
    assert!(move_plan(&[]).is_empty());
}

#[test]
fn shift_keeps_ids_unique_and_ordered() {
    let ids = [7, 8, 10, 12];
    let after = apply(&ids, &move_plan(&ids));
    assert_eq!(after, vec![8, 9, 10, 12]);
    assert!(!after.contains(&7));
    assert!(after.windows(2).all(|w| w[0] < w[1]));
}

#[test]
fn shift_of_a_single_id_moves_it() {
    assert_eq!(move_plan(&[3]), vec![(3, 4)]);
    assert_eq!(move_plan(&[3, 5]), vec![(3, 4)]);
}

#[test]
fn align_renames_only_after_the_first_gap() {
    assert_eq!(align(&[1, 2, 4, 5]), vec![(4, 3), (5, 4)]);
    let (olds, news) = gen_align_vec(&[1, 2, 4, 5]);
    assert_eq!(olds, vec![4, 5]);
    assert_eq!(news, vec![3, 4]);
}

#[test]
fn align_of_contiguous_ids_is_a_no_op() {
    assert!(align(&[1, 2, 3]).is_empty());
    assert!(align(&[]).is_empty());
}

#[test]
fn align_twice_is_align_once() {
    let ids = [3, 7, 8, 20];
    let plan = align(&ids);
    assert_eq!(plan, vec![(3, 1), (7, 2), (8, 3), (20, 4)]);
    let once = apply(&ids, &plan);
    assert_eq!(once, vec![1, 2, 3, 4]);
    assert!(align(&once).is_empty());
}
