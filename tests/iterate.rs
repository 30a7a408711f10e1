use lua_patterns::pattern::LuaPattern;

#[test]
fn gmatch() {
    let mut m = LuaPattern::new("%a+");
    let mut iter = m.gmatch("one two three");
    assert_eq!(iter.next(), Some("one"));
    assert_eq!(iter.next(), Some("two"));
    assert_eq!(iter.next(), Some("three"));
    assert_eq!(iter.next(), None);

    let mut m = LuaPattern::new("(%a+)");
    let mut iter = m.gmatch("one two three");
    assert_eq!(iter.next(), Some("one"));
    assert_eq!(iter.next(), Some("two"));
    assert_eq!(iter.next(), Some("three"));
    assert_eq!(iter.next(), None);
}

#[test]
fn gmatch_words() {
    let m = LuaPattern::new("%S+");
    let mut iter = m.gmatch("dog  cat leopard wolf");
    let mut split = Vec::new();
    while let Some(w) = iter.next() {
        split.push(w);
    }
    assert_eq!(split, &["dog", "cat", "leopard", "wolf"]);
}

#[test]
fn gmatch_bytes_runs() {
    let bytes = &[0xAA, 0x01, 0x01, 0x03, 0xBB, 0x01, 0x01, 0x01];
    let patt = &[0x01, b'+'];
    let m = LuaPattern::from_bytes(patt);
    let mut iter = m.gmatch_bytes(bytes);
    assert_eq!(iter.next().unwrap(), &[0x01, 0x01]);
    assert_eq!(iter.next().unwrap(), &[0x01, 0x01, 0x01]);
    assert_eq!(iter.next(), None);
}

#[test]
fn gmatch_empty_matches_make_progress() {
    let m = LuaPattern::new("%a*");
    let mut iter = m.gmatch("ab 1");
    let mut steps = 0;
    let mut found = Vec::new();
    while let Some(w) = iter.next() {
        found.push(w);
        steps += 1;
        assert!(steps <= 5);
    }
    assert_eq!(found, &["ab", "", "", ""]);
}

#[test]
fn gmatch_empty_pattern_on_empty_subject() {
    let m = LuaPattern::new("");
    let mut iter = m.gmatch("");
    assert_eq!(iter.next(), Some(""));
    assert_eq!(iter.next(), None);
}

#[test]
fn crate_root_names() {
    let mut m = lua_patterns::LuaPattern::new("(%a+) one");
    assert!(m.matches(" hello one two"));
    assert_eq!(lua_patterns::try_match(b"x", b"axb"), Ok(vec![1..2]));
    assert_eq!(lua_patterns::MAX_CAPTURES, 32);
    let patt = lua_patterns::LuaPatternBuilder::new().text("%a").build();
    assert_eq!(patt, b"%a".to_vec());
}
