use zearch::normalize;
use zearch::text::{char_is_whitespace, normalize_one, split_whitespace};

#[test]
fn normalize_lowercases_ascii() {
    assert_eq!(normalize("Tamo"), "tamo");
    assert_eq!(normalize("KEFIR"), "kefir");
    assert_eq!(normalize("abc123XYZ"), "abc123xyz");
}

#[test]
fn normalize_strips_accents() {
    assert_eq!(normalize("très"), "tres");
    assert_eq!(normalize("áâàä"), "aaaa");
    assert_eq!(normalize("éêèë"), "eeee");
    assert_eq!(normalize("íîìï"), "iiii");
    assert_eq!(normalize("óôòö"), "oooo");
    assert_eq!(normalize("úûùü"), "uuuu");
    assert_eq!(normalize("naïve"), "naive");
}

#[test]
fn normalize_drops_the_rest() {
    assert_eq!(normalize("c'est"), "cest");
    assert_eq!(normalize("a-b_c!"), "abc");
    assert_eq!(normalize("..."), "");
    assert_eq!(normalize(""), "");
    assert_eq!(normalize("a b\tc"), "abc");
    assert_eq!(normalize("ÉCOLE"), "cole");
    assert_eq!(normalize("straße"), "strae");
    assert_eq!(normalize("日本語"), "");
    assert_eq!(normalize("\u{0}a\u{7f}"), "a");
}

#[test]
fn normalize_is_idempotent() {
    for word in ["Tamo", "très", "c'est", "ÉCOLE", "", "a-b_c!", "naïve", "kefirounet", "x\u{301}"] {
        let once = normalize(word);
        assert_eq!(normalize(once.as_str()), once);
    }
}

fn fold_as_written(c: char) -> Option<char> {
    match c.to_ascii_lowercase() {
        'á' | 'â' | 'à' | 'ä' => Some('a'),
        'é' | 'ê' | 'è' | 'ë' => Some('e'),
        'í' | 'î' | 'ì' | 'ï' => Some('i'),
        'ó' | 'ô' | 'ò' | 'ö' => Some('o'),
        'ú' | 'û' | 'ù' | 'ü' => Some('u'),
        c if c.is_ascii_punctuation() || !c.is_ascii_graphic() || c.is_ascii_control() => None,
        c => Some(c),
    }
}

#[test]
fn normalize_one_agrees_with_the_ascii_classes_on_every_character() {
    for code in 0..=0x10FFFFu32 {
        if let Some(c) = char::from_u32(code) {
            assert_eq!(normalize_one(c), fold_as_written(c), "character {:?}", c);
        }
    }
}

#[test]
fn whitespace_is_unicode_white_space() {
    for code in 0..=0x10FFFFu32 {
        if let Some(c) = char::from_u32(code) {
            assert_eq!(char_is_whitespace(c), c.is_whitespace(), "character {:?}", c);
        }
    }
}

#[test]
fn split_whitespace_gives_the_words() {
    assert_eq!(split_whitespace("Tamo le plus beau"), vec!["Tamo", "le", "plus", "beau"]);
    assert_eq!(split_whitespace("  a  b\tc\n"), vec!["a", "b", "c"]);
    assert_eq!(split_whitespace(""), Vec::<String>::new());
    assert_eq!(split_whitespace(" \t\r\n"), Vec::<String>::new());
    assert_eq!(split_whitespace("a\u{a0}b\u{3000}c\u{2003}d"), vec!["a", "b", "c", "d"]);
    assert_eq!(split_whitespace("c'est très-beau"), vec!["c'est", "très-beau"]);
}

#[test]
fn split_whitespace_agrees_with_std() {
    for text in [
        "",
        " ",
        "a",
        " a",
        "a ",
        "les keftas c'est bon aussi",
        "\u{85}x\u{1680}y\u{2028}z\u{2029}",
        "tab\tand\nnewline\r\nand\u{b}vertical\u{c}feed",
        "zero\u{200b}width is no space",
    ] {
        let expected: Vec<String> = text.split_whitespace().map(String::from).collect();
        assert_eq!(split_whitespace(text), expected);
    }
}
