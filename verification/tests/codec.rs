use pnet_filesync::codec::{bytes_eq, hex, hex_decode, push_be, read_array, read_be, stand, Standing};
use pnet_filesync::pathmap::PathMap;
use pnet_filesync::text::{
    chars_of, control, find_char, lines, parse_number, push_decimal, space, split, string_of, trim,
    words, Separator,
};

#[test]
fn big_endian_integers() {
    let mut out = Vec::new();
    push_be(&mut out, 0x0102_0304_0506_0708, 8);
    assert_eq!(out, vec![1, 2, 3, 4, 5, 6, 7, 8]);
    assert_eq!(read_be(&out, 0, 8), 0x0102_0304_0506_0708);
    assert_eq!(read_be(&out, 2, 2), 0x0304);
    let mut low = Vec::new();
    push_be(&mut low, 0x1_2345, 2);
    assert_eq!(low, vec![0x23, 0x45]);
    assert_eq!(read_array::<3>(&out, 4), [5, 6, 7]);
}

#[test]
fn dictionary_order() {
    assert_eq!(stand(b"a", b"b"), Standing::Before);
    assert_eq!(stand(b"b", b"ab"), Standing::After);
    assert_eq!(stand(b"ab", b"abc"), Standing::Before);
    assert_eq!(stand(b"", b""), Standing::Same);
    assert_eq!(stand(&[0x80], &[0x7f]), Standing::After);
    assert!(bytes_eq(b"xyz", b"xyz"));
    assert!(!bytes_eq(b"xyz", b"xy"));
    assert!(!bytes_eq(b"xyz", b"xyy"));
}

#[test]
fn hexadecimal_digits() {
    assert_eq!(hex(b'7'), Some(7));
    assert_eq!(hex(b'c'), Some(12));
    assert_eq!(hex(b'F'), Some(15));
    assert_eq!(hex(b'g'), None);
    assert_eq!(hex_decode::<2>("0aF1"), Some([0x0a, 0xf1]));
    assert_eq!(hex_decode::<1>("+7"), Some([7]));
    assert_eq!(hex_decode::<1>("7+"), None);
    assert_eq!(hex_decode::<1>("-7"), None);
    assert_eq!(hex_decode::<2>("0a"), None);
    assert_eq!(hex_decode::<1>("é"), None);
}

#[test]
fn character_classes_are_those_of_std() {
    for c in '\0'..=char::MAX {
        assert_eq!(space(c), c.is_whitespace(), "{:?}", c);
        assert_eq!(control(c), c.is_control(), "{:?}", c);
    }
}

fn strings(v: Vec<Vec<char>>) -> Vec<String> {
    v.into_iter().map(|p| p.into_iter().collect()).collect()
}

#[test]
fn text_is_cut_as_std_cuts_it() {
    for s in ["", "a", "\n", "a\r\nb\n", "a\rb\r\n\r\nc", "x\r", "\r\n", "one\n\ntwo\r"] {
        let expected: Vec<String> = s.lines().map(|l| l.to_string()).collect();
        assert_eq!(strings(lines(&chars_of(s))), expected, "{:?}", s);
    }
    for s in ["", "  ", "GET / HTTP/1.1", " a\u{a0}b\tc ", "x"] {
        let expected: Vec<String> = s.split_whitespace().map(|l| l.to_string()).collect();
        assert_eq!(strings(words(&chars_of(s))), expected, "{:?}", s);
        assert_eq!(string_of(&trim(&chars_of(s))), s.trim());
    }
    for s in ["", "&", "a&b", "&a&&b&", "ab"] {
        let expected: Vec<String> = s.split('&').map(|l| l.to_string()).collect();
        assert_eq!(strings(split(&chars_of(s), Separator::Char('&'))), expected, "{:?}", s);
    }
    assert_eq!(find_char(&chars_of("ab?c?"), '?'), 2);
    assert_eq!(find_char(&chars_of("abc"), '?'), 3);
}

#[test]
fn numbers_are_read_as_std_reads_them() {
    for s in ["", "0", "80", "+80", "+", "++1", "-1", "65535", "65536", "00065535", "9x", "99999999999999999999"] {
        assert_eq!(parse_number(&chars_of(s), 65535), s.parse::<u16>().ok().map(u64::from), "{:?}", s);
        assert_eq!(parse_number(&chars_of(s), u64::MAX), s.parse::<u64>().ok(), "{:?}", s);
    }
    assert_eq!(parse_number(&chars_of("18446744073709551615"), u64::MAX), Some(u64::MAX));
    assert_eq!(parse_number(&chars_of("18446744073709551616"), u64::MAX), None);
    assert_eq!(parse_number(&chars_of("3"), 3), Some(3));
    assert_eq!(parse_number(&chars_of("4"), 3), None);
    assert_eq!(parse_number(&chars_of("00"), 0), Some(0));
    for n in [0u64, 7, 10, 99, 100, 1_700_000_000, u64::MAX] {
        let mut s = String::from("n=");
        push_decimal(&mut s, n);
        assert_eq!(s, format!("n={}", n));
    }
}

#[test]
fn path_map_is_ordered_by_bytes() {
    let mut m: PathMap<u64> = PathMap::new();
    assert!(m.is_empty());
    for (k, v) in [("b", 1), ("a/x", 2), ("é", 3), ("a", 4), ("b", 5)] {
        m.insert(k.to_string(), v);
    }
    assert_eq!(m.len(), 4);
    let keys: Vec<&str> = (0..m.len()).map(|i| m.key(i).as_str()).collect();
    assert_eq!(keys, vec!["a", "a/x", "b", "é"]);
    assert_eq!(m.get("b"), Some(&5));
    assert_eq!(m.get("c"), None);
    assert!(m.contains_key("é"));
    m.set_value(0, 9);
    assert_eq!(*m.value(0), 9);
    assert_eq!(m.get("a"), Some(&9));
}
