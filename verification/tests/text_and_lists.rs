use swift_topomap::cpu_list::parse_cpu_list;
use swift_topomap::text::{
    chars_of, lines_of, parse_u32_chars, parse_u64_chars, remove_char, split_chars, trim_chars,
    u32_or_zero_chars, words_of,
};

fn v(s: &str) -> Vec<char> {
    s.chars().collect()
}

fn strings(parts: Vec<Vec<char>>) -> Vec<String> {
    parts.into_iter().map(|p| p.into_iter().collect()).collect()
}

#[test]
fn chars_of_keeps_every_char() {
    assert_eq!(chars_of("a b\u{e9}"), vec!['a', ' ', 'b', '\u{e9}']);
    assert_eq!(chars_of(""), Vec::<char>::new());
}

#[test]
fn trim_matches_str_trim() {
    for s in ["  12 \n", "\t\u{a0}x y\u{3000}", "", "   ", "abc", "\u{85}z\u{2028}"] {
        let t: String = trim_chars(&v(s)).into_iter().collect();
        assert_eq!(t, s.trim());
    }
}

#[test]
fn words_match_split_whitespace() {
    for s in ["cpu0 1 2  3\t4", "  lead and trail  ", "", " ", "one", "a\u{a0}b"] {
        let w = strings(words_of(&v(s)));
        let expected: Vec<String> = s.split_whitespace().map(|x| x.to_string()).collect();
        assert_eq!(w, expected);
    }
}

#[test]
fn lines_match_str_lines() {
    for s in ["a\nb\n", "a\r\nb", "", "\n", "a\n\nb", "x\r", "one"] {
        let l = strings(lines_of(&v(s)));
        let expected: Vec<String> = s.lines().map(|x| x.to_string()).collect();
        assert_eq!(l, expected);
    }
}

#[test]
fn split_matches_str_split() {
    for s in ["a,b", ",", "", "a,,b,", "abc"] {
        let p = strings(split_chars(&v(s), ','));
        let expected: Vec<String> = s.split(',').map(|x| x.to_string()).collect();
        assert_eq!(p, expected);
    }
}

#[test]
fn remove_char_drops_every_occurrence() {
    let t: String = remove_char(&v(" 0 - 3 ,8 "), ' ').into_iter().collect();
    assert_eq!(t, "0-3,8");
}

#[test]
fn parse_matches_str_parse() {
    for s in ["0", "42", "+7", "-1", "+", "", "007", "4294967295", "4294967296", "12a", " 1"] {
        assert_eq!(parse_u32_chars(&v(s)), s.parse::<u32>().ok());
    }
    for s in ["18446744073709551615", "18446744073709551616", "123456789012"] {
        assert_eq!(parse_u64_chars(&v(s)), s.parse::<u64>().ok());
    }
    assert_eq!(u32_or_zero_chars(&v("x")), 0);
}

#[test]
fn cpu_list_ranges_and_singles() {
    assert_eq!(parse_cpu_list("0-3,8,10-11"), vec![0, 1, 2, 3, 8, 10, 11]);
    assert_eq!(parse_cpu_list("5"), vec![5]);
}

#[test]
fn cpu_list_spaces_are_ignored() {
    assert_eq!(parse_cpu_list(" 0 - 2 , 5 "), vec![0, 1, 2, 5]);
}

#[test]
fn cpu_list_bad_parts_name_nothing() {
    assert_eq!(parse_cpu_list("3-1"), Vec::<u32>::new());
    assert_eq!(parse_cpu_list("1-2-3"), Vec::<u32>::new());
    assert_eq!(parse_cpu_list("-4"), Vec::<u32>::new());
    assert_eq!(parse_cpu_list("abc,7"), vec![7]);
    assert_eq!(parse_cpu_list(""), Vec::<u32>::new());
    assert_eq!(parse_cpu_list(",,"), Vec::<u32>::new());
    assert_eq!(parse_cpu_list("4294967296"), Vec::<u32>::new());
}

#[test]
fn cpu_list_edge_values() {
    assert_eq!(parse_cpu_list("+4"), vec![4]);
    assert_eq!(parse_cpu_list("4294967294-4294967295"), vec![4294967294, 4294967295]);
    assert_eq!(parse_cpu_list("2-2"), vec![2]);
    assert_eq!(parse_cpu_list("1,1"), vec![1, 1]);
}

#[test]
fn cpu_list_joined_by_comma() {
    let a = "0-1";
    let b = "4,6-7";
    let mut both = parse_cpu_list(a);
    both.extend(parse_cpu_list(b));
    assert_eq!(parse_cpu_list("0-1,4,6-7"), both);
}
