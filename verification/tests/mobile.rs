use desktop_edits::mobile::{entry_symbol, env_entries, AndroidSetup, EntrySymbol};

fn entries(text: &str) -> Vec<(String, String)> {
    env_entries(text)
}

fn pair(key: &str, value: &str) -> (String, String) {
    (key.to_string(), value.to_string())
}

#[test]
fn env_file_lines() {
    assert_eq!(entries(""), []);
    assert_eq!(entries("A=1"), [pair("A", "1")]);
    assert_eq!(
        entries("A=1\nB=2\r\n\n  C = x=y \t\nnothing here\n"),
        [pair("A", "1"), pair("B", "2"), pair("C ", " x=y")]
    );
    assert_eq!(
        entries("\u{3000}Ä=ö\u{a0}\nD=\n=e"),
        [pair("Ä", "ö"), pair("D", ""), pair("", "e")]
    );
}

#[test]
fn env_file_lines_as_std_reads_them() {
    for text in ["a\rb=c", "\u{85}k=v\u{2028}", "k=v\u{feff}", "x=\u{1680}y\u{180e}", "\r=\r\r\n"] {
        let expected: Vec<(String, String)> = text
            .lines()
            .filter_map(|line| line.trim().split_once('='))
            .map(|(key, value)| pair(key, value))
            .collect();
        assert_eq!(entries(text), expected);
    }
}

#[test]
fn every_white_space_is_trimmed() {
    for code in 0..=0x10ffffu32 {
        if let Some(c) = char::from_u32(code) {
            if c == '\n' || c == '=' {
                continue;
            }
            let text = format!("{c}k=v");
            let key = if c.is_whitespace() {
                "k".to_string()
            } else {
                format!("{c}k")
            };
            assert_eq!(entries(&text), [(key, "v".to_string())]);
        }
    }
}

#[test]
fn context_is_released_on_recreation() {
    let mut setup = AndroidSetup::new();
    assert!(!setup.ready);
    assert!(!setup.begin());
    assert!(!setup.ready);
    setup.finish();
    assert!(setup.ready);
    assert!(setup.begin());
    assert!(setup.begin());
    assert!(setup.ready);
}

#[test]
fn main_goes_before_underscored_main() {
    assert_eq!(entry_symbol(true, true), Some(EntrySymbol::Main));
    assert_eq!(entry_symbol(true, false), Some(EntrySymbol::Main));
    assert_eq!(entry_symbol(false, true), Some(EntrySymbol::UnderscoredMain));
    assert_eq!(entry_symbol(false, false), None);
}
