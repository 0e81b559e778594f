use linuxpulse::text::{
    chars_of, find_char, parse_u32, parse_u64, rfind_char, split_lines, split_once,
    split_whitespace, strip_prefix, trim,
};

fn chars(s: &str) -> Vec<char> {
    s.chars().collect()
}

fn strings(v: &[Vec<char>]) -> Vec<String> {
    v.iter().map(|w| w.iter().collect()).collect()
}

#[test]
fn chars_of_keeps_every_character() {
    assert_eq!(chars_of("a°b c"), vec!['a', '°', 'b', ' ', 'c']);
}

#[test]
fn split_whitespace_matches_std() {
    for s in ["", "   ", "cpu  1 2\t3\n", "a\u{a0}b\u{3000}c", "  lead", "trail  ", "x"] {
        let expected: Vec<String> = s.split_whitespace().map(String::from).collect();
        assert_eq!(strings(&split_whitespace(&chars(s))), expected);
    }
}

#[test]
fn split_lines_matches_std() {
    for s in ["", "a", "a\n", "a\nb", "a\r\nb\r\n", "\n\n", "x\r", "a\n\rb", "\r\n"] {
        let expected: Vec<String> = s.lines().map(String::from).collect();
        assert_eq!(strings(&split_lines(&chars(s))), expected);
    }
}

#[test]
fn trim_matches_std() {
    for s in ["", "   ", " eth0", "eth0 \n", "\u{2003}x y\u{a0}"] {
        let t: String = trim(&chars(s)).iter().collect();
        assert_eq!(t, s.trim());
    }
}

#[test]
fn parse_u64_matches_std() {
    for s in [
        "0", "42", "+7", "+", "-1", "", " 1", "1 ", "18446744073709551615",
        "18446744073709551616", "000123", "12a", "99999999999999999999999",
    ] {
        assert_eq!(parse_u64(&chars(s)), s.parse::<u64>().ok(), "input {:?}", s);
    }
}

#[test]
fn parse_u32_matches_std() {
    for s in ["4294967295", "4294967296", "1", "+12", "abc", ""] {
        assert_eq!(parse_u32(&chars(s)), s.parse::<u32>().ok(), "input {:?}", s);
    }
}

#[test]
fn find_and_rfind_match_std() {
    let s = "12 (a) b) c";
    assert_eq!(find_char(&chars(s), '('), Some(3));
    assert_eq!(rfind_char(&chars(s), ')'), Some(8));
    assert_eq!(find_char(&chars(s), 'z'), None);
    assert_eq!(rfind_char(&chars(""), ')'), None);
}

#[test]
fn split_once_and_strip_prefix() {
    let (a, b) = split_once(&chars("  eth0: 1 2:3"), ':').unwrap();
    assert_eq!(a.iter().collect::<String>(), "  eth0");
    assert_eq!(b.iter().collect::<String>(), " 1 2:3");
    assert!(split_once(&chars("no colon"), ':').is_none());
    let rest = strip_prefix(&chars("MemTotal: 10 kB"), &chars("MemTotal:")).unwrap();
    assert_eq!(rest.iter().collect::<String>(), " 10 kB");
    assert!(strip_prefix(&chars("Mem"), &chars("MemTotal:")).is_none());
}
