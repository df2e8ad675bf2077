use mcproto::string_distance::{count_eq, count_eq_from_end, DelimDistinct, Levenshtein};

fn chars(s: &str) -> Vec<char> {
    s.chars().collect()
}

#[test]
fn edit_distances() {
    let lev = Levenshtein::default();
    assert_eq!(lev.str_distance("kitten", "sitting"), Some(3));
    assert_eq!(lev.str_distance("sitting", "kitten"), Some(3));
    assert_eq!(lev.str_distance("", "abc"), Some(3));
    assert_eq!(lev.str_distance("abc", ""), Some(3));
    assert_eq!(lev.str_distance("same", "same"), Some(0));
    assert_eq!(lev.str_distance("oak_slab", "oak_slabs"), Some(1));
    assert_eq!(lev.str_distance("flaw", "lawn"), Some(2));
    assert_eq!(lev.str_distance("ébc", "abc"), Some(1));
}

#[test]
fn edit_distance_cut_off() {
    let lev = Levenshtein::with_max_distance(2);
    assert_eq!(lev.str_distance("kitten", "sitting"), None);
    assert_eq!(lev.str_distance("flaw", "lawn"), Some(2));
    assert_eq!(lev.str_distance("a", "abcd"), None);
    assert_eq!(lev.distance(&chars("ab"), &chars("ba")), Some(2));
    let strict = Levenshtein::with_max_distance(0);
    assert_eq!(strict.str_distance("x", "x"), Some(0));
    assert_eq!(strict.str_distance("x", "y"), None);
}

#[test]
fn prefix_and_suffix_split() {
    let d = DelimDistinct::new_skip_take(&chars("oak_stairs"), &chars("oak_slab_stairs"));
    assert_eq!(d.prefix_len, 3);
    assert_eq!(d.suffix_len, 7);
    assert_eq!(d.remaining(), (0, 5));
    assert_eq!(d.common(), 10);
    assert_eq!(d.remaining_s1(), 0);
    assert_eq!(d.remaining_s2(), 5);
    assert!(!d.is_eq());
    assert_eq!(d.distinct_s2, chars("_slab"));
    let same = DelimDistinct::new_skip_take(&chars("abc"), &chars("abc"));
    assert!(same.is_eq());
    assert_eq!(count_eq(&chars("abcx"), &chars("abcy")), 3);
    assert_eq!(count_eq_from_end(&chars("xabc"), &chars("yabc")), 3);
    assert_eq!(count_eq(&chars(""), &chars("a")), 0);
}
