use lethe::text::{compare_text, decimal_string, parse_u16, trim_text, TextOrder};

#[test]
fn text_order_is_the_order_of_strings() {
    let samples = ["", "a", "b", "ab", "aa", "Z", "ä", "a\u{10000}", "a\u{ffff}", "abc", "abd"];
    for a in samples {
        for b in samples {
            let expected = if a < b {
                TextOrder::Less
            } else if a == b {
                TextOrder::Equal
            } else {
                TextOrder::Greater
            };
            assert_eq!(compare_text(a, b), expected, "{:?} {:?}", a, b);
        }
    }
}

#[test]
fn u16_parsing_matches_std() {
    let samples = ["0", "22", "+22", "65535", "65536", "", "+", "-0", " 1", "1 ", "00080", "99999999999", "1a", "٣"];
    for s in samples {
        assert_eq!(parse_u16(s), s.parse::<u16>().ok(), "{:?}", s);
    }
}

#[test]
fn trimming_matches_std() {
    let samples = ["", "  ", " a ", "\u{3000}x\u{85}", "a b", "\n/nix/store/x\n", "\u{200B}x"];
    for s in samples {
        assert_eq!(trim_text(s), s.trim(), "{:?}", s);
    }
}

#[test]
fn decimal_strings_match_display() {
    for n in [0u16, 1, 9, 10, 99, 100, 1234, 65535] {
        assert_eq!(decimal_string(n), n.to_string());
    }
}
