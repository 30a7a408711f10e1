use lua_patterns::engine::{try_match, POSITION_MARKER};
use lua_patterns::error::PatternError;
use lua_patterns::pattern::LuaPattern;

#[test]
fn captures_and_matching() {
    let mut m = LuaPattern::new("(one).+");
    assert_eq!(m.captures(" one two"), &["one two", "one"]);
    let empty: &[&str] = &[];
    assert_eq!(m.captures("four"), empty);

    assert_eq!(m.matches("one dog"), true);
    assert_eq!(m.matches("dog one "), true);
    assert_eq!(m.matches("dog one"), false);

    let text = "one dog";
    let mut m = LuaPattern::new("^(%a+)");
    assert_eq!(m.matches(text), true);
    assert_eq!(&text[m.capture(1)], "one");
    assert_eq!(m.matches(" one dog"), false);

    // captures without allocation
    m.matches(text);
    let captures = m.match_captures(text);
    assert_eq!(captures.get(0), "one");
    assert_eq!(captures.get(1), "one");

    let mut m = LuaPattern::new("(%S+)%s*=%s*(.+)");

    //  captures as Vec
    let cc = m.captures(" hello= bonzo dog");
    assert_eq!(cc[0], "hello= bonzo dog");
    assert_eq!(cc[1], "hello");
    assert_eq!(cc[2], "bonzo dog");

    // captures as iterator
    let text = " frodo = baggins";
    m.matches(text);
    let mut iter = m.match_captures(text).into_iter();
    assert_eq!(iter.next(), Some("frodo = baggins"));
    assert_eq!(iter.next(), Some("frodo"));
    assert_eq!(iter.next(), Some("baggins"));
    assert_eq!(iter.next(), None);
}

#[test]
fn match_captures_without_allocation() {
    let text = "  hello one";
    let mut m = LuaPattern::new("(%S+) one");
    assert!(m.matches(text));
    let cc = m.match_captures(text);
    assert_eq!(cc.num_matches(), 2);
    assert_eq!(cc.get(0), "hello one");
    assert_eq!(cc.get(1), "hello");
}

#[test]
fn byte_captures_in_callback() {
    let mut m = LuaPattern::new("(%d)(%d)");
    let res = m.gsub_bytes_with(b"a12b34", |cc| {
        assert_eq!(cc.num_matches(), 3);
        let mut v = cc.get(2).to_vec();
        v.extend_from_slice(cc.get(1));
        v
    });
    assert_eq!(res, b"a21b43".to_vec());
}

#[test]
fn doc_range() {
    let mut m = LuaPattern::new("one");
    let text = "hello one two";
    assert!(m.matches(text));
    let r = m.range();
    assert_eq!(r.start, 6);
    assert_eq!(r.end, 9);
}

#[test]
fn word_before_one_spans() {
    let mut m = LuaPattern::new("(%a+) one");
    let text = " hello one two";
    assert!(m.matches(text));
    assert_eq!(m.capture(0), 1..10);
    assert_eq!(m.capture(1), 1..6);
    assert_eq!(m.captures(text), &["hello one", "hello"]);
}

#[test]
fn key_value_captures() {
    let mut m = LuaPattern::new("(%S+)%s*=%s*(.+)");
    assert_eq!(m.captures(" hello= bonzo dog"), &["hello= bonzo dog", "hello", "bonzo dog"]);
}

#[test]
fn byte_pattern_with_repetition() {
    let patt = [0xDE, 0x00, b'+', 0xBE];
    let bytes = [0xFF, 0xEE, 0x00, 0xDE, 0x00, 0x00, 0xBE, 0x00, 0x00];
    let mut m = LuaPattern::from_bytes(&patt);
    assert!(m.matches_bytes(&bytes));
    assert_eq!(&bytes[m.range()], &[0xDE, 0x00, 0x00, 0xBE]);
}

#[test]
fn doc_byte_match() {
    let patt = &[0xFE, 0xEE, b'+', 0xED];
    let mut m = LuaPattern::from_bytes(patt);
    let bytes = &[0x00, 0x01, 0xFE, 0xEE, 0xEE, 0xED, 0xEF];
    assert!(m.matches_bytes(bytes));
    assert_eq!(&bytes[m.range()], &[0xFE, 0xEE, 0xEE, 0xED]);
}

#[test]
fn trailing_percent_is_rejected() {
    let e = LuaPattern::try_new("bonzo %").err().unwrap();
    assert_eq!(e, PatternError::EndsWithPercent);
    assert_eq!(e.message(), "malformed pattern (ends with '%')");
}

#[test]
fn back_reference_before_close_is_rejected() {
    let e = LuaPattern::try_new("frodo (1) (2(3)%2)%1").err().unwrap();
    assert_eq!(e, PatternError::InvalidCaptureIndex(2));
    assert_eq!(e.message(), "invalid capture index %2");
}

#[test]
fn each_error_kind() {
    assert_eq!(try_match(b"[a", b""), Err(PatternError::MissingBracket));
    assert_eq!(try_match(b"(a", b"a"), Err(PatternError::UnfinishedCapture));
    assert_eq!(try_match(b"a)", b"a"), Err(PatternError::InvalidPatternCapture));
    assert_eq!(try_match(b"%fa", b""), Err(PatternError::MissingFrontierBracket));
    assert_eq!(try_match(b"%ba", b"a"), Err(PatternError::MissingBalanceArguments));
    assert_eq!(try_match(b"%1", b""), Err(PatternError::InvalidCaptureIndex(1)));
    let many = "()".repeat(32);
    assert_eq!(try_match(many.as_bytes(), b""), Err(PatternError::TooManyCaptures));
    let enough = "()".repeat(31);
    assert_eq!(try_match(enough.as_bytes(), b"").unwrap().len(), 32);
    assert_eq!(PatternError::MissingBracket.message(), "malformed pattern (missing ']')");
    assert_eq!(PatternError::UnfinishedCapture.message(), "unfinished capture");
    assert_eq!(PatternError::InvalidPatternCapture.message(), "invalid pattern capture");
    assert_eq!(PatternError::MissingFrontierBracket.message(), "missing '[' after '%f' in pattern");
    assert_eq!(PatternError::TooManyCaptures.message(), "too many captures");
}

#[test]
fn well_formed_patterns_pass_preflight() {
    assert!(LuaPattern::try_new("(%a+)%s*=%s*[^;]-;").is_ok());
    assert!(LuaPattern::try_new("%b()%f[%w]").is_ok());
}

#[test]
fn no_match_gives_no_spans() {
    assert_eq!(try_match(b"xyz", b"abc"), Ok(vec![]));
    let mut m = LuaPattern::new("xyz");
    assert_eq!(m.match_maybe("abc"), None);
}

#[test]
fn empty_pattern_matches_at_start() {
    assert_eq!(try_match(b"", b"abc"), Ok(vec![0..0]));
    assert_eq!(try_match(b"", b""), Ok(vec![0..0]));
}

#[test]
fn anchors() {
    assert_eq!(try_match(b"^ab", b"abab"), Ok(vec![0..2]));
    assert_eq!(try_match(b"^b", b"abab"), Ok(vec![]));
    assert_eq!(try_match(b"ab$", b"abab"), Ok(vec![2..4]));
    assert_eq!(try_match(b"a^b", b"xa^b"), Ok(vec![1..4]));
    assert_eq!(try_match(b"a$b", b"a$b"), Ok(vec![0..3]));
    assert_eq!(try_match(b"$", b"abc"), Ok(vec![3..3]));
}

#[test]
fn quantifiers() {
    assert_eq!(try_match(b"a*", b"aaab"), Ok(vec![0..3]));
    assert_eq!(try_match(b"a-b", b"aaab"), Ok(vec![0..4]));
    assert_eq!(try_match(b"a-", b"aaab"), Ok(vec![0..0]));
    assert_eq!(try_match(b"ab?c", b"xacx"), Ok(vec![1..3]));
    assert_eq!(try_match(b"ab?c", b"xabcx"), Ok(vec![1..4]));
    assert_eq!(try_match(b"a+", b"bbb"), Ok(vec![]));
    assert_eq!(try_match(b"(a*)(a)", b"aaa"), Ok(vec![0..3, 0..2, 2..3]));
    assert_eq!(try_match(b"(a-)(a+)", b"aaa"), Ok(vec![0..3, 0..0, 0..3]));
}

#[test]
fn classes_and_sets() {
    assert_eq!(try_match(b"%d+", b"ab123c"), Ok(vec![2..5]));
    assert_eq!(try_match(b"%D+", b"12ab3"), Ok(vec![2..4]));
    assert_eq!(try_match(b"[%a_][%w_]*", b"1 _x9 y"), Ok(vec![2..5]));
    assert_eq!(try_match(b"[^%s]+", b"  hi there"), Ok(vec![2..4]));
    assert_eq!(try_match(b"[]]", b"a]"), Ok(vec![1..2]));
    assert_eq!(try_match(b"[a-c]+", b"xxbcaz"), Ok(vec![2..5]));
    assert_eq!(try_match(b"%x+", b"zzBEEFy"), Ok(vec![2..6]));
    assert_eq!(try_match(b"%p", b"ab,c"), Ok(vec![2..3]));
    assert_eq!(try_match(b"%u%l", b"aBc"), Ok(vec![1..3]));
    assert_eq!(try_match(b"%.", b"ab.c"), Ok(vec![2..3]));
    assert_eq!(try_match(b"%c", b"a\x01"), Ok(vec![1..2]));
}

#[test]
fn captures_positions_and_back_references() {
    assert_eq!(
        try_match(b"()aa()", b"flaaap"),
        Ok(vec![2..4, 2..POSITION_MARKER, 4..POSITION_MARKER])
    );
    assert_eq!(try_match(b"(%a)%1", b"abccd"), Ok(vec![2..4, 2..3]));
    assert_eq!(try_match(b"([\"'])(.-)%1", b"say 'hi' ok"), Ok(vec![4..8, 4..5, 5..7]));
}

#[test]
fn balanced_and_frontier() {
    assert_eq!(try_match(b"%b()", b"f(a(b)c)d"), Ok(vec![1..8]));
    assert_eq!(try_match(b"%b()", b"f(a(b"), Ok(vec![]));
    assert_eq!(try_match(b"%f[%w]%w+", b"  hello"), Ok(vec![2..7]));
    assert_eq!(try_match(b"%f[%a]", b"THE (quick) fox"), Ok(vec![0..0]));
    assert_eq!(try_match(b"%f[%z]", b"abc"), Ok(vec![3..3]));
}

#[test]
fn first_capture_and_match_maybe() {
    let mut m = LuaPattern::new("OK%s+(%d+)");
    assert_eq!(m.match_maybe("and that's OK 400 to you"), Some("400"));
    assert_eq!(m.first_capture(), 14..17);
    let mut m = LuaPattern::new("%d+");
    assert_eq!(m.match_maybe("abc 42"), Some("42"));
    assert_eq!(m.first_capture(), m.range());
}

#[test]
fn capture_into_reuses_vector() {
    let text = "  hello one";
    let mut m = LuaPattern::new("(%S+) one");
    let mut v = vec!["old"];
    assert!(m.capture_into(text, &mut v));
    assert_eq!(v, &["hello one", "hello"]);
    assert!(!m.capture_into("nothing", &mut v));
    assert!(v.is_empty());
}

#[test]
fn malformed_pattern_does_not_match() {
    let mut m = LuaPattern::new("(a");
    assert!(!m.matches("a"));
    assert_eq!(m.try_matches_bytes(b"a"), Err(PatternError::UnfinishedCapture));
    assert_eq!(m.try_matches_bytes(b"b"), Err(PatternError::UnfinishedCapture));
}

#[test]
fn anchored_match_starts_at_zero() {
    let v = try_match(b"^%a+", b"abc def").unwrap();
    assert_eq!(v[0].start, 0);
    assert_eq!(try_match(b"^%a+", b" abc"), Ok(vec![]));
}

#[test]
fn spans_lie_within_the_match() {
    let subject = b"key = value; other = thing";
    let v = try_match(b"(%w+)%s*=%s*(%w+)()", subject).unwrap();
    assert!(v[0].start <= v[0].end && v[0].end <= subject.len());
    for s in &v[1..] {
        assert!(v[0].start <= s.start && s.start <= v[0].end);
        assert!(s.end == POSITION_MARKER || s.end <= v[0].end);
    }
}

#[test]
fn text_slices_respect_characters() {
    let mut m = LuaPattern::new(".");
    assert_eq!(m.match_maybe("é"), Some(""));
    let mut m = LuaPattern::new("..");
    assert_eq!(m.match_maybe("é"), Some("é"));
}

#[test]
fn malformed_pattern_messages() {
    let bad = [
        ("bonzo %", "malformed pattern (ends with '%')"),
        ("bonzo (dog%(", "unfinished capture"),
        ("alles [%a%[", "malformed pattern (missing ']')"),
        ("bonzo (dog (cat)", "unfinished capture"),
        ("frodo %f[%A", "malformed pattern (missing ']')"),
        ("frodo (1) (2(3)%2)%1", "invalid capture index %2"),
    ];
    for (patt, msg) in bad.iter() {
        let e = LuaPattern::try_new(patt).err().unwrap();
        assert_eq!(e.message(), *msg);
    }
}
