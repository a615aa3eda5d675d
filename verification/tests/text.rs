use rust_server::numbers::{read_i32, read_usize, write_decimal, write_hexadecimal, write_length};
use rust_server::path::{extension_or_empty, is_below, join, parent_of};
use rust_server::search::{cut, position, split_all, starts_with};
use rust_server::table::TextMap;
use rust_server::text::{
    chars_of, is_white_space, replaced, same_ignoring_ascii_case, same_text, string_of, trimmed,
    trimmed_of, trimmed_start, trimmed_start_of, without_copies, words_of,
};

const SAMPLES: [&str; 12] = [
    "",
    " ",
    "a",
    "  a b\t c \u{a0}",
    "\r\nGET / HTTP/1.1\r\n",
    "..",
    "...",
    "a....b..c.",
    "\"quoted\"",
    "\u{2003}é\u{3000}",
    "aaab",
    "ab:cd: ef",
];

#[test]
fn white_space_is_as_std_has_it() {
    for n in 0..0x11_0000u32 {
        if let Some(c) = char::from_u32(n) {
            assert_eq!(is_white_space(c), c.is_whitespace(), "{n:x}");
        }
    }
}

#[test]
fn trimming_is_as_std_has_it() {
    for s in SAMPLES {
        let c = chars_of(s);
        assert_eq!(string_of(trimmed(&c)), s.trim());
        assert_eq!(string_of(trimmed_start(&c)), s.trim_start());
        assert_eq!(string_of(trimmed_of(&c, '"')), s.trim_matches('"'));
        assert_eq!(string_of(trimmed_of(&c, 'a')), s.trim_matches('a'));
        assert_eq!(string_of(trimmed_start_of(&c, 'a')), s.trim_start_matches('a'));
        for pat in ["a", "..", "aa", "", " "] {
            assert_eq!(
                string_of(without_copies(&c, &chars_of(pat))),
                s.trim_start_matches(pat)
            );
        }
    }
}

#[test]
fn words_are_as_std_has_them() {
    for s in SAMPLES {
        let c = chars_of(s);
        let ours: Vec<String> = words_of(&c).iter().map(|w| string_of(w)).collect();
        let theirs: Vec<&str> = s.split_whitespace().collect();
        assert_eq!(ours, theirs);
    }
}

#[test]
fn splitting_is_as_std_has_it() {
    for s in SAMPLES {
        let c = chars_of(s);
        for sep in ["\r\n", ":", ": ", ";", "..", "a"] {
            let sc = chars_of(sep);
            let ours: Vec<String> = split_all(&c, &sc).iter().map(|w| string_of(w)).collect();
            let theirs: Vec<&str> = s.split(sep).collect();
            assert_eq!(ours, theirs);
            let ours = cut(&c, &sc).map(|(a, b)| (string_of(a), string_of(b)));
            let theirs = s.split_once(sep).map(|(a, b)| (a.to_string(), b.to_string()));
            assert_eq!(ours, theirs);
            assert_eq!(starts_with(&c, &sc), s.starts_with(sep));
            assert_eq!(
                position(s.as_bytes(), sep.as_bytes()),
                s.find(sep),
            );
        }
    }
}

#[test]
fn replacing_is_as_std_has_it() {
    for s in SAMPLES {
        for (from, to) in [("..", "_"), ("a", ""), ("aa", "a")] {
            let ours = replaced(&chars_of(s), &chars_of(from), &chars_of(to));
            assert_eq!(string_of(&ours), s.replace(from, to));
        }
    }
}

#[test]
fn texts_are_compared() {
    for a in SAMPLES {
        for b in SAMPLES {
            assert_eq!(same_text(a, b), a == b);
        }
    }
    assert!(same_ignoring_ascii_case(&chars_of("Content-TYPE"), &chars_of("content-type")));
    assert!(!same_ignoring_ascii_case(&chars_of("É"), &chars_of("é")));
}

#[test]
fn numbers_are_written_as_std_writes_them() {
    for n in [0i64, 7, 10, 200, 999, -1, -2147483648, i64::MAX, i64::MIN + 1] {
        assert_eq!(write_decimal(n), n.to_string());
    }
    for n in [0usize, 9, 10, 10485760, usize::MAX] {
        assert_eq!(write_length(n), n.to_string());
    }
    for n in [0u64, 15, 16, 255, 0xdead_beef, u64::MAX] {
        assert_eq!(write_hexadecimal(n), format!("{n:x}"));
    }
}

#[test]
fn numbers_are_read_as_std_reads_them() {
    for s in [
        "", "0", "+5", "-5", "-", "+", "2147483647", "2147483648", "-2147483648", "-2147483649",
        "00012", " 1", "1 ", "1a", "a", "é", "99999999999999999999999", "--1",
    ] {
        assert_eq!(read_i32(&chars_of(s)), s.parse::<i32>().ok(), "{s}");
    }
    for s in [
        "", "0", "a", "F", "ff", "+1a", "-1", "g", "ffffffffffffffff", "10000000000000000", "1 ",
        "00", "+", "é",
    ] {
        assert_eq!(read_usize(&chars_of(s), 16), usize::from_str_radix(s, 16).ok(), "{s}");
    }
}

#[test]
fn numbers_are_read_back() {
    for n in [0i32, 1, 42, -42, i32::MAX, i32::MIN] {
        assert_eq!(read_i32(&chars_of(&write_decimal(n as i64))), Some(n));
    }
    for n in [0u64, 1, 0x1f, 4096, u64::MAX] {
        assert_eq!(read_usize(&chars_of(&write_hexadecimal(n)), 16), Some(n as usize));
    }
}

#[test]
fn paths_are_as_std_has_them() {
    for base in ["uploads", "cgi-bin/", "", "/srv", "."] {
        for rest in ["a.txt", "", "b/c.py", "/etc/x", "..", "a.tar.gz", ".hidden", "dir/", "dir/."] {
            let joined = join(&chars_of(base), &chars_of(rest));
            let std_joined = std::path::Path::new(base).join(rest);
            assert_eq!(string_of(&joined), std_joined.to_str().unwrap());
        }
    }
    for path in [
        "a.txt", "a", ".hidden", "a.", "x/y.tar.gz", "x.y/z", "x/..", "..", ".", "", "/", "a.txt/",
        "a.txt/.", "a.b//", "/.x", "a/./b.c", "a..b",
    ] {
        let ext = std::path::Path::new(path).extension().and_then(|s| s.to_str()).unwrap_or("");
        assert_eq!(string_of(&extension_or_empty(&chars_of(path))), ext, "{path}");
    }
}

#[test]
fn parents_are_as_std_has_them() {
    let pieces = ["a", ".", "..", "", "b.c", ".x"];
    let mut paths: Vec<String> = vec![String::new(), "/".to_string(), "//".to_string()];
    for x in pieces {
        paths.push(x.to_string());
        paths.push(format!("/{x}"));
        for y in pieces {
            paths.push(format!("{x}/{y}"));
            paths.push(format!("/{x}/{y}"));
            for z in pieces {
                paths.push(format!("{x}/{y}/{z}"));
                paths.push(format!("/{x}/{y}/{z}"));
                paths.push(format!("{x}/{y}//{z}/."));
            }
        }
    }
    for path in paths {
        let ours = parent_of(&chars_of(&path)).map(|p| string_of(&p));
        let theirs = std::path::Path::new(&path).parent().map(|p| p.to_str().unwrap().to_string());
        assert_eq!(ours, theirs, "{path}");
    }
}

#[test]
fn paths_that_go_up_are_told() {
    for rel in [
        "", "a", "a/b.c", "...", "a..b", "..a/b", "./x", "a//b", "a/../b", "a/b/../../c", "a/./../b",
    ] {
        assert!(is_below(&chars_of(rel)), "{rel}");
    }
    for rel in [
        "..", "../x", "a/..", "/a", "/", "x/y/..", "a/../../b", "./../a", "a//../../a", "../uploads/a",
    ] {
        assert!(!is_below(&chars_of(rel)), "{rel}");
    }
}

#[test]
fn table_keeps_one_value_for_each_key() {
    let mut t: TextMap<String> = TextMap::new();
    assert!(t.get("a").is_none());
    t.insert("a".to_string(), "1".to_string());
    t.insert("b".to_string(), "2".to_string());
    t.insert("a".to_string(), "3".to_string());
    assert_eq!(t.len(), 2);
    assert_eq!(t.get("a").unwrap(), "3");
    assert_eq!((t.key_at(0), t.value_at(0).as_str()), ("a", "3"));
    assert_eq!((t.key_at(1), t.value_at(1).as_str()), ("b", "2"));
    t.get_mut("b").unwrap().push('!');
    assert_eq!(t.get("b").unwrap(), "2!");
    assert!(t.get_mut("c").is_none());
}
