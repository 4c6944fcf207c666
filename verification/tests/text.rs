use zenoh_gateway_poc::order::{compare_bytes, compare_str, same_str, Order};
use zenoh_gateway_poc::string_map::StringMap;
use zenoh_gateway_poc::string_set::StringSet;
use zenoh_gateway_poc::text::{
    is_white_space, parse_unsigned, push_decimal, read_list, write_list,
};

#[test]
fn white_space_is_that_of_unicode() {
    for code in 0..=0x10ffffu32 {
        if let Some(c) = char::from_u32(code) {
            assert_eq!(is_white_space(c), c.is_whitespace());
        }
    }
}

#[test]
fn lists_are_trimmed_and_without_empty_items() {
    assert_eq!(read_list(" a , ,b\u{3000},, c d ", ','), ["a", "b", "c d"]);
    assert!(read_list("", ',').is_empty());
    assert!(read_list(" , \t,", ',').is_empty());
    assert_eq!(read_list("a\r\nb\n\n", '\n'), ["a", "b"]);
}

#[test]
fn lists_read_back() {
    let items: Vec<String> = vec!["a/1".to_string(), "b c".to_string(), "ト".to_string()];
    let list = write_list(&items, ',');
    assert_eq!(list, "a/1,b c,ト");
    assert_eq!(read_list(&list, ','), items);
    assert_eq!(write_list(&Vec::new(), ','), "");
}

#[test]
fn numbers_in_decimal() {
    for n in [0u128, 7, 10, 4096, u64::MAX as u128, u128::MAX] {
        let mut s = "n=".to_string();
        push_decimal(&mut s, n);
        assert_eq!(s, format!("n={}", n));
    }
}

#[test]
fn numbers_are_parsed_as_std_does() {
    let texts = [
        "0", "7", "+7", "007", "18446744073709551615", "18446744073709551616", "", "+", "-1",
        "-0", " 1", "1 ", "1_000", "0x10", "++1", "999999999999999999999999999", "٣",
    ];
    for s in texts {
        assert_eq!(parse_unsigned(s, u64::MAX), s.parse::<u64>().ok());
    }
    assert_eq!(parse_unsigned("255", 255), Some(255));
    assert_eq!(parse_unsigned("256", 255), None);
}

fn std_order(order: std::cmp::Ordering) -> i32 {
    match order {
        std::cmp::Ordering::Less => -1,
        std::cmp::Ordering::Equal => 0,
        std::cmp::Ordering::Greater => 1,
    }
}

fn own_order(order: Order) -> i32 {
    match order {
        Order::Less => -1,
        Order::Equal => 0,
        Order::Greater => 1,
    }
}

#[test]
fn strings_are_ordered_as_std_does() {
    let names = ["", "a", "ab", "b", "é", "z", "ト", "\u{ffff}", "😀", "a\0", "A"];
    for a in names {
        for b in names {
            assert_eq!(own_order(compare_str(a, b)), std_order(a.cmp(b)));
            assert_eq!(
                own_order(compare_bytes(a.as_bytes(), b.as_bytes())),
                std_order(a.as_bytes().cmp(b.as_bytes()))
            );
            assert_eq!(same_str(a, b), a == b);
        }
    }
}

#[test]
fn set_of_strings() {
    let mut set = StringSet::new();
    assert!(set.is_empty());
    assert!(set.insert("b".to_string()));
    assert!(set.insert("a".to_string()));
    assert!(set.insert("c".to_string()));
    assert!(!set.insert("b".to_string()));
    assert_eq!(set.to_vec(), ["a", "b", "c"]);
    assert!(set.contains("b"));
    let mut other = set.duplicate();
    assert!(other.remove("b"));
    assert!(!other.remove("b"));
    assert_eq!(set.difference(&other), ["b"]);
    assert_eq!(set.len(), 3);
    assert_eq!(other.len(), 2);
}

#[test]
fn map_of_strings() {
    let mut map: StringMap<u32> = StringMap::new();
    assert_eq!(map.insert("b".to_string(), 2), None);
    assert_eq!(map.insert("a".to_string(), 1), None);
    assert_eq!(map.insert("b".to_string(), 3), Some(2));
    assert_eq!(map.get("b"), Some(&3));
    assert_eq!(map.get("c"), None);
    assert_eq!(map.keys().to_vec(), ["a", "b"]);
    assert_eq!(map.remove("a"), Some(1));
    assert_eq!(map.remove("a"), None);
    assert!(map.contains_key("b"));
    assert_eq!(map.len(), 1);
    map.clear();
    assert_eq!(map.len(), 0);
}
