use retro_aio::quotes::{load_quotes, parse_quotes, select_quotes, system_quotes};

/// The Cyrillic Unicode blocks (Cyrillic, Supplement, Extended-A/B).
fn is_cyrillic(c: char) -> bool {
    matches!(c as u32, 0x0400..=0x052F | 0x2C00..=0x2C5F | 0xA640..=0xA69F)
}

/// Both quote pools must be populated with the expected number of quotes, and
/// they must not be mixed up: every Russian quote is Cyrillic, and no English
/// quote contains a single Cyrillic letter.
#[test]
fn test_quotes_parsing() {
    let (ru_quotes, en_quotes) = load_quotes();

    assert_eq!(
        ru_quotes.len(),
        17,
        "expected exactly 17 Russian quotes, got {}",
        ru_quotes.len()
    );
    assert_eq!(
        en_quotes.len(),
        17,
        "expected exactly 17 English quotes, got {}",
        en_quotes.len()
    );

    for q in &ru_quotes {
        assert!(
            q.chars().any(is_cyrillic),
            "Russian pool contains a non-Cyrillic quote: {q:?}"
        );
    }
    for q in &en_quotes {
        assert!(
            !q.chars().any(is_cyrillic),
            "English pool contains a Cyrillic quote: {q:?}"
        );
    }
}

#[test]
fn sections_follow_the_last_header() {
    let text = "early bird\n\n# Russian Quotes\n  раз  \n# a comment\nдва\r\n# English Quotes (v2)\none\n#Russian Quotes\ntwo\n\t\n# Russian Quotes\nтри";
    let (ru, en) = parse_quotes(text);
    assert_eq!(ru, vec!["раз", "два", "три"]);
    assert_eq!(en, vec!["early bird", "one", "two"]);
}

#[test]
fn empty_texts_have_no_quotes() {
    for text in ["", "\n\n", "# Russian Quotes\n# English Quotes\n", "   \n#x"] {
        let (ru, en) = parse_quotes(text);
        assert!(ru.is_empty() && en.is_empty());
    }
}

#[test]
fn quotes_are_trimmed_content_lines() {
    let (ru, en) = load_quotes();
    for q in ru.iter().chain(en.iter()) {
        assert!(!q.is_empty() && !q.starts_with('#') && q.trim() == *q);
    }
}

#[test]
fn the_locale_picks_the_pool() {
    let pick = |l: Option<&str>| {
        select_quotes(l.map(|s| s.to_string()), vec!["да"], vec!["yes"])
    };
    assert_eq!(pick(Some("ru-RU")), vec!["да"]);
    assert_eq!(pick(Some("ru")), vec!["да"]);
    assert_eq!(pick(Some("en-US")), vec!["yes"]);
    assert_eq!(pick(Some("de_DE")), vec!["yes"]);
    assert_eq!(pick(Some("RU")), vec!["yes"]);
    assert_eq!(pick(Some("r")), vec!["yes"]);
    assert_eq!(pick(Some("")), vec!["yes"]);
    assert_eq!(pick(None), vec!["yes"]);
}

#[test]
fn the_system_pool_follows_the_system_locale() {
    let (ru, en) = load_quotes();
    let locale = sys_locale::get_locale().unwrap_or_else(|| "en-US".to_string());
    let expected = if locale.starts_with("ru") { ru } else { en };
    assert_eq!(system_quotes(), expected);
}
