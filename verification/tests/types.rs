use rst::names::_parse_names;
use rst::types::{ArtName, ArtNames, ArtType, LoadFromStr, Loc, Settings};
use std::rc::Rc;

#[test]
fn test_artname_parent() {
    let name = ArtName::from_str("REQ-foo-bar-b").unwrap();
    let parent = name.parent().unwrap();
    assert_eq!(parent, ArtName::from_str("REQ-foo-bar").unwrap());
    let parent = parent.parent().unwrap();
    assert_eq!(parent, ArtName::from_str("REQ-foo").unwrap());
    let parent = parent.parent().unwrap();
    let req = ArtName::from_str("REQ-2").unwrap().parent().unwrap();
    assert_eq!(parent, req);
    assert!(parent.parent().is_none());
}

#[test]
fn test_parse_names() {
    assert_eq!(_parse_names(&mut "hi, ho".chars(), false).unwrap(), ["hi", "ho"]);
    assert_eq!(_parse_names(&mut "hi-[ho, he]".chars(), false).unwrap(), ["hi-ho", "hi-he"]);
    assert_eq!(
        _parse_names(&mut "hi-[ho, he], he-[ho, hi, ha-[ha, he]]".chars(), false).unwrap(),
        ["hi-ho", "hi-he", "he-ho", "he-hi", "he-ha-ha", "he-ha-he"]
    );
    assert!(_parse_names(&mut "[]".chars(), false).is_err());
    assert!(_parse_names(&mut "[hi]".chars(), false).is_err());
    assert!(_parse_names(&mut "hi-[ho, [he]]".chars(), false).is_err());
    assert!(_parse_names(&mut "hi-[ho, he".chars(), false).is_err());
}

#[test]
fn parse_names_error_messages() {
    let e = _parse_names(&mut "hi-[ho, he".chars(), false).unwrap_err();
    assert_eq!(e.desc, "brackets are not closed");
    let e = _parse_names(&mut "[hi]".chars(), false).unwrap_err();
    assert_eq!(e.desc, "cannot have '[' after characters ',' or ']' or at start of string");
}

#[test]
fn parse_names_doc_example() {
    assert_eq!(
        _parse_names(&mut "hello-[there, you-[are, great]]".chars(), false).unwrap(),
        ["hello-there", "hello-you-are", "hello-you-great"]
    );
}

#[test]
fn parse_names_blanks_and_empty_pieces() {
    assert_eq!(_parse_names(&mut " a,\n,b\r ,, ".chars(), false).unwrap(), ["a", "b"]);
    assert_eq!(_parse_names(&mut "".chars(), false).unwrap(), Vec::<String>::new());
    assert_eq!(_parse_names(&mut "a[]".chars(), false).unwrap(), Vec::<String>::new());
}

#[test]
fn parse_names_stops_at_closing_bracket() {
    let mut it = "a, b] c".chars();
    assert_eq!(_parse_names(&mut it, false).unwrap(), ["a", "b"]);
    assert_eq!(it.as_str(), " c");
    let mut it = "x], y".chars();
    assert_eq!(_parse_names(&mut it, true).unwrap(), ["x"]);
    assert_eq!(it.as_str(), ", y");
}

#[test]
fn parse_names_text_after_brackets_starts_a_new_name() {
    assert_eq!(_parse_names(&mut "a-[b]c".chars(), false).unwrap(), ["a-b", "c"]);
}

#[test]
fn from_str_normalizes() {
    let n = ArtName::from_str("spc-Foo bar-b").unwrap();
    assert_eq!(n.raw, "spc-Foo bar-b");
    assert_eq!(n.value, vec!["SPC", "FOOBAR", "B"]);
    assert_eq!(n.ty, ArtType::SPC);
    assert!(!n.is_root());
    assert!(ArtName::from_str("TST").unwrap().is_root());
    assert_eq!(ArtName::from_str("rsk-a").unwrap().ty, ArtType::RSK);
}

#[test]
fn from_str_rejects_bad_names() {
    let e = ArtName::from_str("REQ-foo-").unwrap_err();
    assert_eq!(e.desc, "invalid artifact name: REQ-foo-");
    let e = ArtName::from_str("foo").unwrap_err();
    assert_eq!(e.desc, "invalid artifact name: foo");
    let e = ArtName::from_str("REQ-a.b").unwrap_err();
    assert_eq!(e.desc, "invalid artifact name: REQ-a.b");
    let e = ArtName::from_str("xREQ-foo").unwrap_err();
    assert_eq!(e.desc, "invalid artifact name: xREQ-foo");
    let e = ArtName::from_str("REQ-a.REQ").unwrap_err();
    assert_eq!(e.desc, "invalid artifact name: REQ-a.REQ");
}

#[test]
fn from_matched_decides_on_the_match() {
    assert!(ArtName::from_matched("REQ-foo", false).is_err());
    let n = ArtName::from_matched("req-foo", true).unwrap();
    assert_eq!(n.value, vec!["REQ", "FOO"]);
    let e = ArtName::from_matched("abc-foo", true).unwrap_err();
    assert_eq!(e.desc, "name must start with REQ, RSK, SPC or TST: abc-foo");
}

#[test]
fn parent_raw_is_joined_value() {
    let n = ArtName::from_str("req-foo-bar").unwrap();
    let p = n.parent().unwrap();
    assert_eq!(p.raw, "REQ-FOO");
    assert_eq!(p.value, vec!["REQ", "FOO"]);
    let prc = n.parent_rc().unwrap();
    assert_eq!(*prc, p);
    assert!(ArtName::from_str("REQ").unwrap().parent_rc().is_none());
}

#[test]
fn named_partofs_by_kind() {
    let t = ArtName::from_str("TST-foo-bar").unwrap();
    assert_eq!(t.named_partofs(), vec![ArtName::from_str("SPC-foo-bar").unwrap()]);
    assert_eq!(t.named_partofs()[0].raw, "SPC-foo-bar");
    let s = ArtName::from_str("spc-foo").unwrap();
    assert_eq!(s.named_partofs(), vec![ArtName::from_str("REQ-foo").unwrap()]);
    assert!(ArtName::from_str("REQ-foo").unwrap().named_partofs().is_empty());
    assert!(ArtName::from_str("RSK-foo").unwrap().named_partofs().is_empty());
    assert!(ArtName::from_str("TST").unwrap().named_partofs().is_empty());
}

#[test]
fn try_named_partofs_checks_the_text() {
    let t = ArtName::from_str(" TST-foo").unwrap();
    assert!(t.try_named_partofs().is_none());
    let t = ArtName::from_str("TST-foo").unwrap();
    assert_eq!(t.try_named_partofs().unwrap(), vec![ArtName::from_str("SPC-foo").unwrap()]);
}

#[test]
fn default_name() {
    let d = ArtName::default();
    assert_eq!(d, ArtName::from_str("REQ-default").unwrap());
    assert_eq!(d.raw, "REQ-default");
}

#[test]
fn names_equal_by_value() {
    let a = ArtName::from_str("req-foo").unwrap();
    let b = ArtName::from_str("REQ-FOO").unwrap();
    assert_eq!(a, b);
    assert!(a != ArtName::from_str("REQ-FOO-B").unwrap());
    let c = a.clone();
    assert_eq!(c.raw, "req-foo");
}

#[test]
fn art_names_from_str() {
    let names = ArtNames::from_str("REQ-[a, b], req-a, SPC-c").unwrap();
    assert_eq!(names.len(), 3);
    assert!(names.contains(&ArtName::from_str("REQ-A").unwrap()));
    assert!(names.contains(&ArtName::from_str("REQ-B").unwrap()));
    assert!(names.contains(&ArtName::from_str("spc-c").unwrap()));
    assert_eq!(names.as_vec()[0].raw, "REQ-a");
    let e = ArtNames::from_str("REQ-a, foo").err().unwrap();
    assert_eq!(e.desc, "invalid artifact name: foo");
    let e = ArtNames::from_str("REQ-[a").err().unwrap();
    assert_eq!(e.desc, "brackets are not closed");
}

#[test]
fn art_names_insert_keeps_first() {
    let mut names = ArtNames::new();
    assert!(names.insert(Rc::new(ArtName::from_str("req-a").unwrap())));
    assert!(!names.insert(Rc::new(ArtName::from_str("REQ-A").unwrap())));
    assert_eq!(names.len(), 1);
    assert_eq!(names.as_vec()[0].raw, "req-a");
}

#[test]
fn rc_name_from_str() {
    let n: Rc<ArtName> = LoadFromStr::from_str("tst-x").unwrap();
    assert_eq!(n.ty, ArtType::TST);
    assert!(<Rc<ArtName> as LoadFromStr>::from_str("nope").is_err());
}

#[test]
fn loc_fake_and_settings() {
    let l = Loc::fake();
    assert_eq!(l.path, "fake");
    assert_eq!(l.line_col, (42, 0));
    assert_eq!(l.clone(), l);
    let s = Settings::new();
    assert!(!s.disabled);
    assert!(s.paths.is_empty() && s.code_paths.is_empty() && s.exclude_code_paths.is_empty());
    assert!(s.color);
}

#[test]
fn names_are_ordered_by_segments() {
    let a = ArtName::from_str("REQ-a").unwrap();
    let b = ArtName::from_str("REQ-b").unwrap();
    let ab = ArtName::from_str("REQ-a-b").unwrap();
    assert!(a < b);
    assert!(a < ab);
    assert!(ab < b);
    assert!(ArtName::from_str("RSK-a").unwrap() > ArtName::from_str("REQ-z").unwrap());
    assert_eq!(a.partial_cmp(&ArtName::from_str("req-A").unwrap()), Some(std::cmp::Ordering::Equal));
}

#[test]
fn parent_text_reads_back() {
    let n = ArtName::from_str(" req-foo bar-baz").unwrap();
    let p = n.parent().unwrap();
    assert_eq!(p.raw, "REQ-FOOBAR");
    let again = ArtName::from_str(&p.raw).unwrap();
    assert_eq!(again.value, p.value);
    assert_eq!(again.ty, p.ty);
}

#[test]
fn parents_reach_root() {
    let mut n = ArtName::from_str("TST-a-b-c").unwrap();
    let mut steps = 0;
    while let Some(p) = n.parent() {
        n = p;
        steps += 1;
    }
    assert_eq!(steps, 3);
    assert!(n.is_root());
    assert_eq!(n.value, vec!["TST"]);
}

#[test]
fn load_error_message() {
    let e = rst::types::LoadError::new("bad".to_string());
    assert_eq!(e.message(), "Parse Errors: bad");
}

#[test]
fn parse_names_blanks_do_not_matter() {
    let spaced = _parse_names(&mut " h i - [ h o ,\n h e ] ".chars(), false).unwrap();
    let tight = _parse_names(&mut "hi-[ho,he]".chars(), false).unwrap();
    assert_eq!(spaced, tight);
    assert_eq!(tight, ["hi-ho", "hi-he"]);
}

#[test]
fn display_texts() {
    let n = ArtName::from_str("req-foo bar-b").unwrap();
    assert_eq!(n.display_text(), "req-foo bar-b");
    assert_eq!(n.debug_text(), "REQ-FOOBAR-B");
    assert_eq!(Loc::fake().display_text(), "fake(42:0)");
    let l = Loc { path: "a/b.rs".to_string(), line_col: (1203, 17) };
    assert_eq!(l.display_text(), "a/b.rs(1203:17)");
}

#[test]
fn parse_names_comma_joins_lists() {
    let x = "a-[b, c-[d]]";
    let y = "e, f-[g]";
    let mut both = _parse_names(&mut x.chars(), false).unwrap();
    both.extend(_parse_names(&mut y.chars(), false).unwrap());
    let joined = format!("{},{}", x, y);
    assert_eq!(_parse_names(&mut joined.chars(), false).unwrap(), both);
}

#[test]
fn parse_names_group_with_nested_groups() {
    assert_eq!(
        _parse_names(&mut "p q-[a, b-[c, d]]".chars(), false).unwrap(),
        ["pq-a", "pq-b-c", "pq-b-d"]
    );
}

#[test]
fn parent_orders_below_child() {
    let n = ArtName::from_str("SPC-x-y").unwrap();
    let p = n.parent().unwrap();
    assert!(p < n);
    assert!(p.parent().unwrap() < p);
}

#[test]
fn art_names_first_error_and_first_kept() {
    let e = ArtNames::from_str("REQ-a, bad, also bad").err().unwrap();
    assert_eq!(e.desc, "invalid artifact name: bad");
    let names = ArtNames::from_str("spc-x, SPC-X, spc - x").unwrap();
    assert_eq!(names.len(), 1);
    assert_eq!(names.as_vec()[0].raw, "spc-x");
}

#[test]
fn art_names_raw_texts() {
    let names = ArtNames::from_str("req-a, SPC-b, REQ-A").unwrap();
    assert_eq!(names.raw_texts(), vec!["req-a".to_string(), "SPC-b".to_string()]);
}

#[test]
fn named_partofs_split_after_three_bytes() {
    let n = ArtName {
        raw: "\u{e9}X-foo".to_string(),
        value: vec!["TST".to_string(), "FOO".to_string()],
        ty: ArtType::TST,
    };
    assert_eq!(n.try_named_partofs().unwrap(), vec![ArtName::from_str("SPC-foo").unwrap()]);
    assert_eq!(n.named_partofs()[0].raw, "SPC-foo");
    let m = ArtName {
        raw: "\u{e9}\u{e9}-foo".to_string(),
        value: vec!["TST".to_string(), "FOO".to_string()],
        ty: ArtType::TST,
    };
    assert!(m.try_named_partofs().is_none());
}

#[test]
fn debug_text_reads_back() {
    let n = ArtName::from_str(" tst-foo bar-baz_1").unwrap();
    let again = ArtName::from_str(&n.debug_text()).unwrap();
    assert_eq!(again, n);
    assert_eq!(again.raw, "TST-FOOBAR-BAZ_1");
}
