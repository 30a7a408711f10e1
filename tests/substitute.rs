use lua_patterns::builder::LuaPatternBuilder;
use lua_patterns::pattern::LuaPattern;
use lua_patterns::subst::{generate_gsub_patterns, Subst};

#[test]
fn gsub() {
    let mut m = LuaPattern::new("%$(%S+)");
    let res = m.gsub_with("hello $dolly you're so $fine!", |cc| cc.get(1).to_uppercase());
    assert_eq!(res, "hello DOLLY you're so FINE!");

    let mut map = std::collections::HashMap::new();
    map.insert("dolly", "baby");
    map.insert("fine", "cool");
    map.insert("good-looking", "pretty");

    let mut m = LuaPattern::new("%$%((.-)%)");
    let res = m.gsub_with("hello $(dolly) you're so $(fine) and $(good-looking)", |cc| {
        map.get(cc.get(1)).unwrap_or(&"?").to_string()
    });
    assert_eq!(res, "hello baby you're so cool and pretty");

    let mut m = LuaPattern::new("%s+");
    let res = m.gsub("hello dolly you're so fine", "");
    assert_eq!(res, "hellodollyyou'resofine");

    let mut m = LuaPattern::new("(%S+)%s*=%s*(%S+);%s*");
    let res = m.gsub("a=2; b=3; c = 4;", "'%2':%1 ");
    assert_eq!(res, "'2':a '3':b '4':c ");
}

#[test]
fn gsub_bytes_with_callback() {
    let bytes = &[0xAA, 0x01, 0x02, 0x03, 0xBB];
    let patt = &[0x01, 0x02];
    let mut m = LuaPattern::from_bytes(patt);
    let res = m.gsub_bytes_with(bytes, |_cc| vec![0xFF]);
    assert_eq!(res, &[0xAA, 0xFF, 0x03, 0xBB]);
}

#[test]
fn gsub_template_references() {
    let mut m = LuaPattern::new("(%w+)");
    assert_eq!(m.gsub("hello world", "%1 %1"), "hello hello world world");
    assert_eq!(m.gsub("hello world", "<%0>"), "<hello> <world>");
    assert_eq!(m.gsub("abc", "100%%"), "100%");
    assert_eq!(m.gsub("abc", "%3"), "");
}

#[test]
fn gsub_empty_matches() {
    let mut m = LuaPattern::new("x*");
    assert_eq!(m.gsub("abc", "-"), "-a-b-c-");
    let mut m = LuaPattern::new("");
    assert_eq!(m.gsub("", "!"), "!");
}

#[test]
fn gsub_empty_template_removes_matches() {
    let mut m = LuaPattern::new("%d");
    assert_eq!(m.gsub_bytes(b"a1b22c", ""), b"abc".to_vec());
}

#[test]
fn template_pieces() {
    let ps = generate_gsub_patterns("'%2':%1 %% x");
    assert_eq!(ps.len(), 7);
    assert!(matches!(&ps[0], Subst::Text(t) if t == b"'"));
    assert!(matches!(&ps[1], Subst::Capture(2)));
    assert!(matches!(&ps[2], Subst::Text(t) if t == b"':"));
    assert!(matches!(&ps[3], Subst::Capture(1)));
    assert!(matches!(&ps[5], Subst::Text(t) if t == b"%"));
    assert!(matches!(&ps[6], Subst::Text(t) if t == b" x"));
    assert!(matches!(Subst::new_text("ab"), Subst::Text(t) if t == b"ab"));
}

#[test]
fn builder_text() {
    let patt = LuaPatternBuilder::new().text("(boo)").build();
    assert_eq!(std::str::from_utf8(&patt).unwrap(), "(boo)");
}

#[test]
fn builder_text_lines() {
    let patt = LuaPatternBuilder::new()
        .text_lines(
            "
      hello-dolly
      you-are-fine  # comment
      cool
     ",
        )
        .build();
    assert_eq!(std::str::from_utf8(&patt).unwrap(), "hello-dollyyou-are-finecool");
}

#[test]
fn builder_escapes_magic() {
    let patt = LuaPatternBuilder::new().text("^").bytes(b"^").build();
    assert_eq!(std::str::from_utf8(&patt).unwrap(), "^%^");
    let patt = LuaPatternBuilder::new().text("^").bytes_as_hex("5E").build();
    assert_eq!(std::str::from_utf8(&patt).unwrap(), "^%^");
    let patt = LuaPatternBuilder::new().bytes(b"a.b%c").build();
    assert_eq!(patt, b"a%.b%%c".to_vec());
}

#[test]
fn escaped_bytes_match_themselves() {
    let b: &[u8] = b"(1+2)*[x]-$^%?.";
    let patt = LuaPatternBuilder::new().bytes(b).build();
    let mut subject = b"zz".to_vec();
    subject.extend_from_slice(b);
    subject.extend_from_slice(b"yy");
    let mut m = LuaPattern::from_bytes(&patt);
    assert!(m.matches_bytes(&subject));
    assert_eq!(m.range(), 2..2 + b.len());
}

#[test]
fn hex_conversions() {
    assert_eq!(LuaPatternBuilder::hex_to_bytes("AEFE00FE"), &[0xAE, 0xFE, 0x00, 0xFE]);
    assert_eq!(LuaPatternBuilder::bytes_to_hex(&[0xAE, 0xFE, 0x00, 0xFE]), "AEFE00FE");
    assert_eq!(LuaPatternBuilder::hex_to_bytes("ae fe 0"), &[0xAE, 0xFE]);
    assert_eq!(LuaPatternBuilder::bytes_to_hex(&[]), "");
    let all: Vec<u8> = (0..=255).collect();
    let hex = LuaPatternBuilder::bytes_to_hex(&all);
    assert_eq!(LuaPatternBuilder::hex_to_bytes(&hex), all);
}

#[test]
fn template_piece_lists() {
    let ps = generate_gsub_patterns("'%2':%1 ");
    assert_eq!(ps.len(), 5);
    assert!(matches!(&ps[0], Subst::Text(t) if t == b"'"));
    assert!(matches!(&ps[1], Subst::Capture(2)));
    assert!(matches!(&ps[2], Subst::Text(t) if t == b"':"));
    assert!(matches!(&ps[3], Subst::Capture(1)));
    assert!(matches!(&ps[4], Subst::Text(t) if t == b" "));
    let ps = generate_gsub_patterns("%%1");
    assert_eq!(ps.len(), 2);
    assert!(matches!(&ps[0], Subst::Text(t) if t == b"%"));
    assert!(matches!(&ps[1], Subst::Text(t) if t == b"1"));
    let ps = generate_gsub_patterns("%1");
    assert_eq!(ps.len(), 2);
    assert!(matches!(&ps[1], Subst::Text(t) if t.is_empty()));
}

#[test]
fn callback_called_once_per_match_in_order() {
    let calls = std::cell::RefCell::new(Vec::new());
    let mut m = LuaPattern::new("%d+");
    let res = m.gsub_with("a1b22c333", |cc| {
        calls.borrow_mut().push(cc.get(0).to_string());
        format!("<{}>", cc.get(0))
    });
    assert_eq!(res, "a<1>b<22>c<333>");
    assert_eq!(*calls.borrow(), vec!["1", "22", "333"]);
    let res = m.gsub_with("none here", |_cc| panic!("no match, no call"));
    assert_eq!(res, "none here");
}

#[test]
fn text_lines_unicode_spaces() {
    let patt = LuaPatternBuilder::new().text_lines("\u{a0}ab\u{3000}cd\n\u{2003}ef gh\n").build();
    assert_eq!(std::str::from_utf8(&patt).unwrap(), "abef");
}
