use zyraxbuster::text::{
    chars_of, decimal_chars, is_whitespace_char, parse_u16, split_chars, string_of, trimmed,
};

fn s(v: &[char]) -> String {
    v.iter().collect()
}

#[test]
fn whitespace_matches_char_is_whitespace() {
    for code in 0u32..=0x10FFFF {
        if let Some(c) = char::from_u32(code) {
            assert_eq!(is_whitespace_char(c), c.is_whitespace(), "char U+{:04X}", code);
        }
    }
}

#[test]
fn trimmed_matches_str_trim() {
    let samples = [
        "", "   ", " a ", "\tword\r\n", "\u{3000}x\u{00A0}", "no-trim", " \u{2028}mid dle\u{205F} ",
        "\u{FEFF}bom",
    ];
    for sample in samples {
        let cs = chars_of(sample);
        assert_eq!(s(&trimmed(&cs)), sample.trim(), "sample {:?}", sample);
    }
}

#[test]
fn split_chars_matches_str_split() {
    let samples = ["", ",", "a,b", "a,,b,", ",lead", "no-comma", "x,y,z"];
    for sample in samples {
        let cs = chars_of(sample);
        let pieces: Vec<String> = split_chars(&cs, ',').iter().map(|p| s(p)).collect();
        let expected: Vec<String> = sample.split(',').map(|p| p.to_string()).collect();
        assert_eq!(pieces, expected, "sample {:?}", sample);
    }
}

#[test]
fn parse_u16_matches_str_parse() {
    let samples = [
        "", "+", "-", "-1", "-0", "+5", "++5", "0", "007", "404", "65535", "65536", "99999999999999999999",
        "1a", " 1", "1 ", "٣", "12,3",
    ];
    for sample in samples {
        let cs = chars_of(sample);
        assert_eq!(parse_u16(&cs), sample.parse::<u16>().ok(), "sample {:?}", sample);
    }
}

#[test]
fn decimal_chars_matches_to_string() {
    let samples = [0u64, 7, 10, 99, 100, 404, 65535, 1234567890, u64::MAX];
    for n in samples {
        assert_eq!(s(&decimal_chars(n)), n.to_string());
    }
}

#[test]
fn chars_and_string_roundtrip() {
    let text = "héllo wörld ✓";
    let cs = chars_of(text);
    assert_eq!(cs.len(), text.chars().count());
    assert_eq!(string_of(&cs), text);
}
