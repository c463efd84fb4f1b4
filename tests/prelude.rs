use entoli::fib::fib;
use entoli::prelude::{
    all, any, append, concat_map, cycle, drop, drop_while, elem, elem_index, elem_indecies,
    filter, filter_map, find, find_index, find_indecies, foldl, foldr, fst, head, id, init,
    is_prefix_of, is_suffix_of, iterate, last, length, maximum, minimum, nth, put_str,
    put_str_ln, repeat, replicate, reverse, scanl, scanl1, snd, sort, sort_on, span, split_at, sum,
    tail, take, take_while, unzip, zip, zip_with,
};

fn chars(s: &str) -> Vec<char> {
    s.chars().collect()
}

#[test]
fn test_fst() {
    assert_eq!(fst((1, 2)), 1);
}

#[test]
fn test_snd() {
    assert_eq!(snd((1, 2)), 2);
}

#[test]
fn test_foldl() {
    assert_eq!(foldl(|acc, x| acc + x, 0, Vec::<i32>::new()), 0);

    assert_eq!(foldl(|acc, x| acc + x, 0, vec![1, 2, 3, 4, 5]), 15);
}

#[test]
fn foldl_associates_to_the_left() {
    assert_eq!(foldl(|acc, x| acc - x, 10, vec![1, 2, 3]), 4);
}

#[test]
fn test_foldr() {
    assert_eq!(foldr(|x, acc| acc + x, 0, Vec::<i32>::new()), 0);

    assert_eq!(foldr(|x, acc| acc + x, 0, vec![1, 2, 3, 4, 5]), 15);
}

#[test]
fn foldr_associates_to_the_right() {
    assert_eq!(foldr(|x, acc| x - acc, 0, vec![10, 4, 1]), 7);
}

#[test]
fn test_elem() {
    assert_eq!(elem(1, Vec::<i32>::new()), false);

    assert_eq!(elem(1, vec![2, 3, 4]), false);
    assert_eq!(elem(1, vec![1, 2, 3]), true);
}

#[test]
fn test_maximum() {
    assert_eq!(maximum(Vec::<i64>::new()), None);

    assert_eq!(maximum(vec![1, 2, 3, 4, 5]), Some(5));
}

#[test]
fn test_minimum() {
    assert_eq!(minimum(Vec::<i64>::new()), None);

    assert_eq!(minimum(vec![1, 2, 3, 4, 5]), Some(1));
}

#[test]
fn test_sum() {
    assert_eq!(sum(Vec::<i64>::new()), 0);

    assert_eq!(sum(vec![1, 2, 3, 4, 5]), 15);
}

#[test]
fn sum_tolerates_large_partial_sums() {
    assert_eq!(sum(vec![i64::MAX, 1, -2]), i64::MAX - 1);
}

#[test]
fn test_any() {
    assert_eq!(any(|x| x > 0, Vec::<i32>::new()), false);

    assert_eq!(any(|x| x > 0, vec![-1, -2, -3]), false);
    assert_eq!(any(|x| x > 0, vec![-1, 2, -3]), true);
}

#[test]
fn test_all() {
    assert_eq!(all(|x| x > 0, Vec::<i32>::new()), true);

    assert_eq!(all(|x| x > 0, vec![-1, -2, -3]), false);
    assert_eq!(all(|x| x > 0, vec![1, 2, 3]), true);
}

#[test]
fn test_id() {
    assert_eq!(id(1), 1);
}

#[test]
fn test_map() {
    assert_eq!(entoli::prelude::map(|x| x + 1, Vec::<i32>::new()), Vec::<i32>::new());

    assert_eq!(entoli::prelude::map(|x| x + 1, vec![1, 2, 3]), vec![2, 3, 4]);
}

#[test]
fn test_append() {
    assert_eq!(append(Vec::<i32>::new(), Vec::<i32>::new()), Vec::<i32>::new());

    assert_eq!(append(vec![1, 2, 3], vec![4, 5, 6]), vec![1, 2, 3, 4, 5, 6]);
}

#[test]
fn test_filter() {
    assert_eq!(filter(|x| x > &0, Vec::<i32>::new()), Vec::<i32>::new());

    assert_eq!(filter(|x| x > &0, vec![-1, -2, -3]), Vec::<i32>::new());
    assert_eq!(filter(|x| x > &0, vec![-1, 2, -3]), vec![2]);
}

#[test]
fn test_head() {
    assert_eq!(head(vec![1, 2, 3]), 1);
}

#[test]
fn test_last() {
    assert_eq!(last(vec![1, 2, 3]), 3);
}

#[test]
fn test_tail() {
    assert_eq!(tail(Vec::<i32>::new()), Vec::<i32>::new());

    assert_eq!(tail(vec![1, 2, 3]), vec![2, 3]);
}

#[test]
fn test_init() {
    assert_eq!(init(Vec::<i32>::new()), Vec::<i32>::new());

    assert_eq!(init(vec![1, 2, 3]), vec![1, 2]);
}

#[test]
fn test_nth() {
    assert_eq!(nth(0, Vec::<i32>::new()), None);

    assert_eq!(nth(0, vec![1, 2, 3]), Some(1));
}

#[test]
fn nth_past_the_end_is_none() {
    assert_eq!(nth(2, vec![1, 2, 3]), Some(3));
    assert_eq!(nth(3, vec![1, 2, 3]), None);
}

#[test]
fn test_length() {
    assert_eq!(length(Vec::<i32>::new()), 0);

    assert_eq!(length(vec![1, 2, 3]), 3);
}

#[test]
fn test_reverse() {
    assert_eq!(reverse(Vec::<i32>::new()), Vec::<i32>::new());

    assert_eq!(reverse(vec![1, 2, 3]), vec![3, 2, 1]);
}

#[test]
fn test_concat() {
    assert_eq!(entoli::prelude::concat(Vec::<Vec<i32>>::new()), Vec::<i32>::new());

    assert_eq!(entoli::prelude::concat(vec![vec![1, 2], vec![3, 4]]), vec![1, 2, 3, 4]);
}

#[test]
fn test_concat_map() {
    assert_eq!(concat_map(|x| vec![x, x], Vec::<i32>::new()), Vec::<i32>::new());
    assert_eq!(concat_map(|x| vec![x, x], vec![1, 2, 3]), vec![1, 1, 2, 2, 3, 3]);
}

#[test]
fn test_scanl() {
    assert_eq!(
        scanl(|acc, x| *acc && (x % 2 == 0), true, Vec::<i32>::new()),
        vec![true]
    );

    assert_eq!(
        scanl(|acc, x| *acc && (x % 2 == 0), true, vec![0, 2, 4, 5, 7]),
        vec![true, true, true, true, false, false]
    );
}

#[test]
fn test_scanl1() {
    assert_eq!(scanl1(|acc, x| acc + x, Vec::<i32>::new()), Vec::<i32>::new());

    assert_eq!(scanl1(|acc, x| acc + x, vec![1, 2, 3, 4, 5]), vec![1, 3, 6, 10, 15]);
}

#[test]
fn test_iterate() {
    assert_eq!(iterate(|x| x + 1, 0, 5), vec![0, 1, 2, 3, 4]);
}

#[test]
fn iterate_zero_times_is_empty() {
    assert_eq!(iterate(|x| x * 2, 1, 0), Vec::<i32>::new());
    assert_eq!(iterate(|x| x * 2, 1, 4), vec![1, 2, 4, 8]);
}

#[test]
fn test_repeat() {
    assert_eq!(repeat(1, 5), vec![1, 1, 1, 1, 1]);
}

#[test]
fn test_replicate() {
    assert_eq!(replicate(5, 1), vec![1, 1, 1, 1, 1]);
}

#[test]
fn test_cycle() {
    assert_eq!(cycle(vec![1, 2, 3], 7), vec![1, 2, 3, 1, 2, 3, 1]);
}

#[test]
fn cycle_of_empty_is_empty() {
    assert_eq!(cycle(Vec::<i32>::new(), 4), Vec::<i32>::new());
}

#[test]
fn test_take() {
    assert_eq!(take(0, Vec::<i32>::new()), Vec::<i32>::new());

    assert_eq!(take(2, vec![1, 2, 3]), vec![1, 2]);
}

#[test]
fn test_drop() {
    assert_eq!(drop(0, Vec::<i32>::new()), Vec::<i32>::new());

    assert_eq!(drop(2, vec![1, 2, 3]), vec![3]);
}

#[test]
fn take_and_drop_past_the_end() {
    assert_eq!(take(5, vec![1, 2]), vec![1, 2]);
    assert_eq!(drop(5, vec![1, 2]), Vec::<i32>::new());
}

#[test]
fn test_take_while() {
    assert_eq!(take_while(|x| x < &3, Vec::<i32>::new()), Vec::<i32>::new());

    assert_eq!(take_while(|x| x < &3, vec![1, 2, 3, 4, 5]), vec![1, 2]);
}

#[test]
fn test_drop_while() {
    assert_eq!(drop_while(|x| x < &3, Vec::<i32>::new()), Vec::<i32>::new());

    assert_eq!(drop_while(|x| x < &3, vec![1, 2, 3, 4, 5]), vec![3, 4, 5]);
}

#[test]
fn test_span() {
    let (xs, ys) = span(|x| x < &3, vec![1, 2, 3, 4, 5]);

    assert_eq!(xs, vec![1, 2]);
    assert_eq!(ys, vec![3, 4, 5]);
}

#[test]
fn test_split_at() {
    let (xs, ys) = split_at(2, vec![1, 2, 3, 4, 5]);

    assert_eq!(xs, vec![1, 2]);
    assert_eq!(ys, vec![3, 4, 5]);
}

#[test]
fn prelude_test_zip() {
    assert_eq!(zip(vec![1, 2, 3], vec![4, 5, 6]), vec![(1, 4), (2, 5), (3, 6)]);
}

#[test]
fn zip_stops_at_the_shorter() {
    assert_eq!(zip(vec![1, 2, 3], vec!['a']), vec![(1, 'a')]);
}

#[test]
fn test_zip_with() {
    assert_eq!(zip_with(|x, y| x + y, vec![1, 2, 3], vec![4, 5, 6]), vec![5, 7, 9]);
}

#[test]
fn test_unzip() {
    let (xs, ys): (Vec<_>, Vec<_>) = unzip(vec![(1, 4), (2, 5), (3, 6)]);

    assert_eq!(xs, vec![1, 2, 3]);
    assert_eq!(ys, vec![4, 5, 6]);
}

#[test]
fn test_filter_map() {
    assert_eq!(
        filter_map(|x| if x % 2 == 0 { Some(x) } else { None }, vec![1, 2, 3, 4, 5]),
        vec![2, 4]
    );
}

#[test]
fn test_find() {
    assert_eq!(find(|x| *x == 1, vec![1, 2, 3]), Some(1));
    assert_eq!(find(|x| *x == 1, vec![2, 3, 4]), None);
}

#[test]
fn test_elem_index() {
    assert_eq!(elem_index(1, vec![1, 2, 3]), Some(0));
    assert_eq!(elem_index(1, vec![2, 3, 4]), None);
}

#[test]
fn test_find_index() {
    assert_eq!(find_index(|x| *x == 1, vec![1, 2, 3]), Some(0));
    assert_eq!(find_index(|x| *x == 1, vec![2, 3, 4]), None);
}

#[test]
fn test_elem_indecies() {
    assert_eq!(find_indecies(|x| *x == 1, vec![1, 2, 3]), vec![0]);
    assert_eq!(find_indecies(|x| *x == 1, vec![2, 3, 4]), Vec::<usize>::new());
}

#[test]
fn test_find_indecies() {
    assert_eq!(find_indecies(|x| *x == 1, vec![1, 2, 3]), vec![0]);
    assert_eq!(find_indecies(|x| *x == 1, vec![2, 3, 4]), Vec::<usize>::new());
}

#[test]
fn elem_indecies_lists_every_occurrence() {
    assert_eq!(elem_indecies(7, vec![7, 1, 7, 7, 2]), vec![0, 2, 3]);
    assert_eq!(elem_indecies(9, vec![7, 1]), Vec::<usize>::new());
}

#[test]
fn test_sort() {
    assert_eq!(sort(vec![3, 2, 1]), vec![1, 2, 3]);
}

#[test]
fn sort_keeps_duplicates() {
    assert_eq!(sort(vec![5, -1, 5, 0, -1]), vec![-1, -1, 0, 5, 5]);
    assert_eq!(sort(vec![]), Vec::<i64>::new());
}

#[test]
fn test_sort_on() {
    assert_eq!(sort_on(|x: &i64| -x, vec![3, 2, 1]), vec![3, 2, 1]);
}

#[test]
fn sort_on_is_stable() {
    let sorted = sort_on(|p: &(i64, char)| p.0, vec![(2, 'a'), (1, 'b'), (2, 'c'), (1, 'd')]);
    assert_eq!(sorted, vec![(1, 'b'), (1, 'd'), (2, 'a'), (2, 'c')]);
}

#[test]
fn test_is_prefix_of() {
    assert_eq!(is_prefix_of(vec![1, 2], vec![1, 2, 3]), true);
    assert_eq!(is_prefix_of(vec![1, 2], vec![1, 3, 4]), false);

    assert_eq!(is_prefix_of(chars("ab"), chars("abc")), true);
    assert_eq!(is_prefix_of(chars("ab"), chars("acb")), false);
}

#[test]
fn test_is_suffix_of() {
    assert_eq!(is_suffix_of(vec![2, 3], vec![1, 2, 3]), true);
    assert_eq!(is_suffix_of(vec![2, 3], vec![1, 3, 4]), false);

    assert_eq!(is_suffix_of(chars("bc"), chars("abc")), true);
    assert_eq!(is_suffix_of(chars("bc"), chars("acb")), false);
}

#[test]
fn prefix_and_suffix_longer_than_list() {
    assert!(!is_prefix_of(vec![1, 2, 3], vec![1, 2]));
    assert!(!is_suffix_of(vec![1, 2, 3], vec![2, 3]));
    assert!(is_prefix_of(Vec::<i32>::new(), vec![4]));
}

#[test]
fn put_str_actions_hold_their_text() {
    assert_eq!(put_str("hi".to_string()).0, "hi");
    assert_eq!(put_str_ln("there".to_string()).0, "there");
}

#[test]
fn fib_values() {
    assert_eq!(fib(0), 0);
    assert_eq!(fib(1), 1);
    assert_eq!(fib(10), 55);
    assert_eq!(fib(20), 6765);
}
