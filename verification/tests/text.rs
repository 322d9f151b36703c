use roblox_luau_env::text::{
    bytes_of, decimal_text, joined, lowered, pieces, space, text_at_most, text_eq, trimmed,
};

#[test]
fn spaces_agree_with_the_standard_library() {
    for code in 0..0x11_0000u32 {
        if let Some(c) = char::from_u32(code) {
            assert_eq!(space(c), c.is_whitespace(), "{code:x}");
        }
    }
}

#[test]
fn texts_agree_with_the_standard_library() {
    let texts = vec!["", " ", "a", "A", "ab ", "\u{a0}é\n", "aé", "b", "\u{10000}", "\u{ffff}", "a,b,,c", ","];
    for a in &texts {
        for b in &texts {
            assert_eq!(text_eq(a, b), a == b);
            assert_eq!(text_at_most(a, b), a <= b, "{a:?} {b:?}");
        }
        assert_eq!(trimmed(a), a.trim());
        assert_eq!(lowered(a), a.to_ascii_lowercase());
        assert_eq!(bytes_of(a), a.as_bytes().to_vec());
        let split: Vec<String> = a.split(',').map(|part| part.to_string()).collect();
        assert_eq!(pieces(a, ','), split);
        assert_eq!(joined(&split, ","), a.to_string());
    }
}

#[test]
fn numbers_in_decimal() {
    for n in vec![0, 7, 10, 99, 100, 57163, u64::MAX] {
        assert_eq!(decimal_text(n), n.to_string());
    }
}
