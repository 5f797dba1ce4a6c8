//! The quicksort, the majority vote, and a little standalone insertion
//! sort exercised for fun.

use tsinghua_ds::sort::find_majory;
use tsinghua_ds::sort::quicksort;

fn insert_sort(a: &mut [i32; 15]) {
    for i in 1..a.len() {
        let tmp = a[i];
        let mut idx = i;
        for j in (1..=i).rev() {
            if tmp > a[j - 1] {
                break;
            }
            a[j] = a[j - 1];
            idx = j - 1;
        }
        a[idx] = tmp;
    }
}

#[test]
fn just_for_fun() {
    let mut array = [3, 4, 5, 2, 48, 19, 39, 390, 43, 12, 8, 9, 10, 7, 5];

    insert_sort(&mut array);

    assert_eq!([2, 3, 4, 5, 5, 7, 8, 9, 10, 12, 19, 39, 43, 48, 390], array);
}

#[test]
fn test_quicksort() {
    let mut array = [3, 4, 2, 5, 48, 19, 39, 390, 43, 12, 8, 9, 10, 7, 5];
    let (lo, hi) = (0, array.len());
    quicksort(&mut array, lo, hi);
    assert_eq!([2, 3, 4, 5, 5, 7, 8, 9, 10, 12, 19, 39, 43, 48, 390], array);

    array = [3, 4, 5, 2, 48, 19, 39, 390, 43, 12, 8, 9, 10, 7, 5];
    let (lo, hi) = (3, array.len() - 5);
    quicksort(&mut array, lo, hi);
    assert_eq!([3, 4, 5, 2, 12, 19, 39, 43, 48, 390, 8, 9, 10, 7, 5], array);

    array = [3, 4, 5, 2, 48, 19, 39, 390, 43, 12, 8, 9, 10, 7, 5];
    let (lo, hi) = (3, array.len());
    quicksort(&mut array, lo, hi);
    assert_eq!([3, 4, 5, 2, 5, 7, 8, 9, 10, 12, 19, 39, 43, 48, 390], array);

    let mut array = [3, 4, 5, -3, -10, 2, 48, 19, 39, 390, 43, 12, 8, 9, 10, 7, 5];
    let (lo, hi) = (0, array.len());
    quicksort(&mut array, lo, hi);
    assert_eq!(
        [-10, -3, 2, 3, 4, 5, 5, 7, 8, 9, 10, 12, 19, 39, 43, 48, 390],
        array
    );

    let mut move_array = [
        format!("{}", 3),
        format!("{}", 4),
        format!("{}", 5),
        format!("{}", 2),
        format!("{}", 48),
        format!("{}", 19),
        format!("{}", 39),
        format!("{}", 390),
        format!("{}", 43),
        format!("{}", 12),
        format!("{}", 8),
        format!("{}", 9),
        format!("{}", 10),
        format!("{}", 7),
        format!("{}", 5),
    ];
    let (lo, hi) = (0, move_array.len());
    quicksort(&mut move_array, lo, hi);
    assert_eq!(
        [
            format!("{}", 10),
            format!("{}", 12),
            format!("{}", 19),
            format!("{}", 2),
            format!("{}", 3),
            format!("{}", 39),
            format!("{}", 390),
            format!("{}", 4),
            format!("{}", 43),
            format!("{}", 48),
            format!("{}", 5),
            format!("{}", 5),
            format!("{}", 7),
            format!("{}", 8),
            format!("{}", 9),
        ],
        move_array
    );
}

#[test]
fn majority_vote() {
    let mut with_majority = [2, 7, 2, 2, 5, 2, 2];
    assert_eq!(find_majory(&mut with_majority), 2);
    assert_eq!(with_majority, [2, 7, 2, 2, 5, 2, 2]);

    let mut all_same = [9, 9, 9];
    assert_eq!(find_majory(&mut all_same), 9);

    let mut single = [41];
    assert_eq!(find_majory(&mut single), 41);
}
