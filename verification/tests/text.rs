use closured::text::{chars_of, same_text, split_once, to_decimal, trim};

#[test]
fn trimming_agrees_with_std() {
    let samples = [
        "", " ", "a", " a ", "\t\r\n a b \u{b}\u{c}", "\u{85}x\u{a0}", "\u{1680}x\u{2000}\u{200a}",
        "\u{2028}\u{2029}\u{202f}\u{205f}\u{3000}", "\u{200b}x\u{200b}", "\u{e9} \u{e9}", "\u{1c}x",
        "\u{180e}x\u{feff}", " \u{1f600} ",
    ];
    for s in samples {
        assert_eq!(trim(s), s.trim(), "{s:?}");
    }
}

#[test]
fn white_space_is_that_of_unicode() {
    for c in '\0'..=char::MAX {
        let s = c.to_string();
        if c < '\u{4000}' || c == '\u{feff}' || c == char::MAX {
            assert_eq!(trim(&s), s.trim(), "{c:?}");
        } else {
            assert!(!c.is_whitespace());
        }
    }
}

#[test]
fn splitting_agrees_with_std() {
    for s in ["", "=", "a=b", "a=b=c", "=b", "a=", "ab", "\u{e9}=\u{1f600}", "\u{bd}=x", "\u{2003}"] {
        assert_eq!(split_once(s, b'='), s.split_once('='), "{s:?}");
    }
    assert_eq!(split_once("a\nb\n", b'\n'), Some(("a", "b\n")));
}

#[test]
fn decimals_agree_with_std() {
    for n in [0, 1, 9, 10, 11, 99, 100, 907, 4096, u32::MAX as u64, u64::MAX] {
        assert_eq!(to_decimal(n), n.to_string());
    }
}

#[test]
fn characters_and_equality() {
    assert_eq!(chars_of("a\u{e9}\u{1f600}"), vec!['a', '\u{e9}', '\u{1f600}']);
    assert!(same_text("a\u{e9}", "a\u{e9}"));
    assert!(!same_text("a", "ab"));
    assert!(!same_text("a", "b"));
}
