use libpassgen::Pool;
use std::str::FromStr;

#[test]
fn pool_sort() {
    let mut pool = Pool::from_str("31524").unwrap();
    pool.sort();

    assert_eq!(pool, Pool::from_str("12345").unwrap())
}

#[test]
fn pool_extend() {
    let mut pool = Pool::from_str("abc").unwrap();
    pool.extend(vec!['d', 'e']);

    assert_eq!(pool, Pool::from_str("abcde").unwrap())
}

#[test]
fn pool_from_iter() {
    let iter = vec!['a', 'b', 'c'].into_iter();

    assert_eq!(Pool::from_iter(iter.collect()), Pool::from_str("abc").unwrap());
}

#[test]
fn pool_remove_all() {
    let mut pool: Pool = "abcde".parse().unwrap();
    pool.remove_all("ace");

    assert_eq!(pool, "bd".parse::<Pool>().unwrap());
}

#[test]
fn pool_swap_remove() {
    let mut pool: Pool = "abcdefz".parse().unwrap();

    assert!(pool.swap_remove(&'b'));
    assert_eq!(pool.get(1), Some(&'z'));
    assert_eq!(pool.get(6), None);
}

#[test]
fn pool_shift_remove() {
    let mut pool: Pool = "abcdefz".parse().unwrap();

    assert!(pool.shift_remove(&'b'));
    assert_eq!(pool.get(1), Some(&'c'));
    assert_eq!(pool.get(6), None);
}

#[test]
fn pool_iter() {
    let pool: Pool = "abcdefz".parse().unwrap();
    let chars = pool.iter();
    let mut iter = chars.iter();

    assert_eq!(iter.next(), Some(&'a'));
    assert_eq!(iter.next(), Some(&'b'));
    assert_eq!(iter.last(), Some(&'z'));
}

#[test]
fn pool_display() {
    let pool: Pool = "0123456789".parse().unwrap();

    assert_eq!(pool.to_string(), "0123456789".to_owned());
}

#[test]
fn pool_contains_all() {
    let pool: Pool = "0123456789".parse().unwrap();

    assert!(pool.contains_all("2357"));
}

#[test]
fn pool_contains_all_assert_false() {
    let pool: Pool = "0123456789".parse().unwrap();

    assert!(!pool.contains_all("0123F"));
}

#[test]
fn pool_contains() {
    let pool: Pool = "0123456789".parse().unwrap();

    assert!(pool.contains('5'));
}

#[test]
fn pool_contains_assert_false() {
    let pool: Pool = "0123456789".parse().unwrap();

    assert!(!pool.contains('A'));
}

#[test]
fn pool_get() {
    let pool: Pool = "ABCD".parse().unwrap();

    assert_eq!(pool.get(0), Some(&'A'))
}

#[test]
fn pool_is_empty() {
    let pool = Pool::new();

    assert!(pool.is_empty());
}

#[test]
fn pool_is_empty_assert_false() {
    let pool = Pool::from_str("0123456789").unwrap();

    assert!(!pool.is_empty());
}

#[test]
fn pool_len() {
    let pool: Pool = "0123456789".parse().unwrap();

    assert_eq!(pool.len(), 10)
}

#[test]
fn pool_insert() {
    let mut pool = "ABC".parse::<Pool>().unwrap();
    pool.insert('D');

    assert_eq!(pool, "ABCD".parse::<Pool>().unwrap())
}

#[test]
fn pool_extend_from_string() {
    let mut pool = "ABC".parse::<Pool>().unwrap();
    let mut other_pool = pool.clone();

    other_pool.insert('D');
    pool.extend_from_string("D");

    assert_eq!(other_pool, pool)
}

#[test]
fn pool_from_string() {
    let pool = Pool::from_iter("0123456789".chars().collect());

    assert_eq!(pool, "0123456789".to_owned().parse().unwrap())
}

#[test]
fn pool_from_str() {
    let pool = Pool::from_iter("0123456789".chars().collect());

    assert_eq!(pool, "0123456789".parse().unwrap())
}

#[test]
fn parse_keeps_first_occurrence_of_each_char() {
    let pool = Pool::parse("abracadabra");

    assert_eq!(pool.len(), 5);
    assert_eq!(pool.iter(), vec!['a', 'b', 'r', 'c', 'd']);
    assert!(pool.contains_all("cadabra"));
}

#[test]
fn parse_empty_string_gives_empty_pool() {
    let pool = Pool::parse("");

    assert!(pool.is_empty());
    assert_eq!(pool.len(), 0);
    assert_eq!(pool.to_string(), "");
    assert_eq!(pool, Pool::default());
}

#[test]
fn insert_present_char_changes_nothing() {
    let mut pool = Pool::parse("xyz");
    pool.insert('y');
    pool.insert('y');

    assert_eq!(pool.len(), 3);
    assert_eq!(pool.iter(), vec!['x', 'y', 'z']);
}

#[test]
fn insert_appends_new_char_at_end() {
    let mut pool = Pool::parse("xyz");
    pool.insert('a');

    assert_eq!(pool.iter(), vec!['x', 'y', 'z', 'a']);
    assert_eq!(pool.get(3), Some(&'a'));
}

#[test]
fn to_string_then_parse_gives_same_order() {
    let mut pool = Pool::parse("hello world");
    pool.insert('!');
    let again = Pool::parse(&pool.to_string());

    assert_eq!(pool.to_string(), "helo wrd!");
    assert_eq!(again.iter(), pool.iter());
}

#[test]
fn swap_and_shift_remove_orders() {
    let mut swapped = Pool::parse("abcdefz");
    let mut shifted = Pool::parse("abcdefz");
    swapped.swap_remove(&'b');
    shifted.shift_remove(&'b');

    assert_eq!(swapped.iter(), vec!['a', 'z', 'c', 'd', 'e', 'f']);
    assert_eq!(shifted.iter(), vec!['a', 'c', 'd', 'e', 'f', 'z']);
}

#[test]
fn remove_absent_char_returns_false() {
    let mut pool = Pool::parse("abc");

    assert!(!pool.swap_remove(&'q'));
    assert!(!pool.shift_remove(&'q'));
    assert_eq!(pool.iter(), vec!['a', 'b', 'c']);
}

#[test]
fn swap_remove_last_char() {
    let mut pool = Pool::parse("abc");

    assert!(pool.swap_remove(&'c'));
    assert_eq!(pool.iter(), vec!['a', 'b']);
}

#[test]
fn remove_all_uses_swap_order() {
    let mut pool = Pool::parse("abcde");
    pool.remove_all("acex");

    assert_eq!(pool.iter(), vec!['d', 'b']);
}

#[test]
fn sort_orders_by_code_point() {
    let mut pool = Pool::parse("zA9a");
    pool.sort();

    assert_eq!(pool.iter(), vec!['9', 'A', 'a', 'z']);
}

#[test]
fn get_past_end_is_none() {
    let pool = Pool::parse("ab");

    assert_eq!(pool.get(2), None);
    assert_eq!(Pool::new().get(0), None);
}

#[test]
fn contains_all_of_empty_string() {
    assert!(Pool::new().contains_all(""));
    assert!(!Pool::new().contains_all("a"));
}

#[test]
fn parse_multibyte_chars() {
    let pool = Pool::parse("äöäü€");

    assert_eq!(pool.len(), 4);
    assert_eq!(pool.to_string(), "äöü€");
}

#[test]
fn clone_keeps_order() {
    let mut pool = Pool::parse("zyx");
    pool.insert('a');
    let copy = pool.clone();

    assert_eq!(copy.iter(), vec!['z', 'y', 'x', 'a']);
}

#[test]
fn from_str_keeps_first_occurrence_order() {
    let pool = Pool::from_str("0123456789").unwrap();

    assert_eq!(pool.iter(), "0123456789".chars().collect::<Vec<char>>());
    assert_eq!(Pool::from_str("baab").unwrap().iter(), vec!['b', 'a']);
}
