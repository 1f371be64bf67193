use result_line::ser::Erra;
use result_line::ser::ResultLineStructurizer;
use result_line::NamedItem;
use result_line::ResultItem;

/// Feeds one `key=value` field to the encoder, the way a driver walking a
/// map or record does: the key's item is stored, the value's item is
/// paired with it and handed over.
fn put(enc: &mut ResultLineStructurizer, key: &str, value: ResultItem) -> Result<(), Erra> {
    let k = enc.eat(ResultItem::Text(key.to_owned()));
    enc.set_name(k);
    let v = enc.eat(value);
    enc.accept(v)
}

#[test]
fn serialization_test() {
    let mut enc = ResultLineStructurizer::new();
    put(&mut enc, "a", ResultItem::Text("hello world".to_owned())).unwrap();
    put(&mut enc, "b", ResultItem::Integer(-123423904)).unwrap();
    // the flattened map's entries, in its key order
    put(&mut enc, "a key", ResultItem::Integer(8123)).unwrap();
    put(&mut enc, "another key", ResultItem::Integer(1850)).unwrap();
    put(&mut enc, "nowhitespace", ResultItem::Integer(8123)).unwrap();
    put(&mut enc, "yet another key", ResultItem::Integer(21850)).unwrap();
    put(&mut enc, "d", ResultItem::Boolean(true)).unwrap();
    put(&mut enc, "e", ResultItem::Text("this is an owned string with unicode".to_owned()))
        .unwrap();
    // a variant with no payload encodes as the empty item and vanishes
    put(&mut enc, "f", ResultItem::Empty).unwrap();
    // a variant with one payload encodes as the payload alone
    put(&mut enc, "g", ResultItem::Text("string in a variant".to_owned())).unwrap();
    put(&mut enc, "h", ResultItem::Integer(12356)).unwrap();

    assert_eq!(
        enc.render(),
        r#"RESULT a="hello world" b=-123423904 "a key"=8123 "another key"=1850 nowhitespace=8123 "yet another key"=21850 d=true e="this is an owned string with unicode" g="string in a variant" h=12356"#
    );
}

#[test]
fn flattened_map_entry_appears_at_top_level() {
    let mut enc = ResultLineStructurizer::new();
    put(&mut enc, "a", ResultItem::Text("hello world".to_owned())).unwrap();
    put(&mut enc, "b", ResultItem::Integer(-123423904)).unwrap();
    put(&mut enc, "map key", ResultItem::Integer(100)).unwrap();
    put(&mut enc, "d", ResultItem::Boolean(true)).unwrap();
    assert_eq!(enc.render(), r#"RESULT a="hello world" b=-123423904 "map key"=100 d=true"#);
}

#[test]
fn absent_fields_vanish_and_an_all_absent_record_is_bare() {
    let mut enc = ResultLineStructurizer::new();
    put(&mut enc, "a", ResultItem::Empty).unwrap();
    put(&mut enc, "b", ResultItem::Empty).unwrap();
    assert_eq!(enc.render(), "RESULT");

    let mut enc = ResultLineStructurizer::new();
    put(&mut enc, "a", ResultItem::Integer(1)).unwrap();
    put(&mut enc, "gone", ResultItem::Empty).unwrap();
    put(&mut enc, "c", ResultItem::Integer(3)).unwrap();
    assert_eq!(enc.render(), "RESULT a=1 c=3");
}

#[test]
fn eat_pairs_a_value_with_the_pending_key() {
    let mut enc = ResultLineStructurizer::new();
    enc.set_name(ResultItem::Text("k".to_owned()));
    let r = enc.eat(ResultItem::Integer(7));
    match r {
        ResultItem::Named(item) => {
            assert_eq!(item.name, ResultItem::Text("k".to_owned()));
            assert_eq!(item.value, ResultItem::Integer(7));
        },
        other => panic!("expected a named item, got {:?}", other),
    }
    // with no key pending, the item passes through unchanged
    let r = enc.eat(ResultItem::Integer(7));
    assert_eq!(r, ResultItem::Integer(7));
}

#[test]
fn a_value_without_a_name_is_an_error() {
    let mut enc = ResultLineStructurizer::new();
    let r = enc.accept(ResultItem::Integer(7));
    assert_eq!(r, Err(Erra::UnnamedItem));
    assert_eq!(enc.render(), "RESULT");
}

#[test]
fn named_items_render_with_the_quoting_rule() {
    assert_eq!(
        NamedItem::new(
            ResultItem::Text("a key".to_owned()),
            ResultItem::Text("some value".to_owned()),
        )
        .render(),
        r#""a key"="some value""#
    );
    assert_eq!(
        NamedItem::new(ResultItem::Text("k".to_owned()), ResultItem::Boolean(false)).render(),
        "k=false"
    );
    assert_eq!(
        NamedItem::new(ResultItem::Text("k".to_owned()), ResultItem::Character('x')).render(),
        "k=x"
    );
    assert_eq!(
        NamedItem::new(ResultItem::Text("k".to_owned()), ResultItem::Float("8123.23".to_owned()))
            .render(),
        "k=8123.23"
    );
}

#[test]
fn a_whitespace_character_value_is_quoted() {
    // the quoting rule looks at the rendered text, not at the variant
    assert_eq!(
        NamedItem::new(ResultItem::Text("k".to_owned()), ResultItem::Character(' ')).render(),
        "k=\" \""
    );
    // at the top level an item renders plain, with no quoting
    assert_eq!(ResultItem::Character(' ').render(), " ");
}

#[test]
fn a_pair_with_a_non_scalar_key_is_an_error() {
    // an empty key — what a nested collection's end would leave behind
    let mut enc = ResultLineStructurizer::new();
    enc.set_name(ResultItem::Empty);
    let r = enc.eat(ResultItem::Integer(1));
    assert_eq!(enc.accept(r), Err(Erra::UnnamedItem));
    assert_eq!(enc.render(), "RESULT");

    // a named item as key
    let mut enc = ResultLineStructurizer::new();
    enc.set_name(ResultItem::Text("outer".to_owned()));
    let nested = enc.eat(ResultItem::Text("inner".to_owned()));
    enc.set_name(nested);
    let r = enc.eat(ResultItem::Integer(1));
    assert_eq!(enc.accept(r), Err(Erra::UnnamedItem));
    assert_eq!(enc.render(), "RESULT");
}

#[test]
fn integers_render_in_exact_decimal() {
    assert_eq!(ResultItem::Integer(0).render(), "0");
    assert_eq!(ResultItem::Integer(907).render(), "907");
    assert_eq!(ResultItem::Integer(-1).render(), "-1");
    assert_eq!(ResultItem::Integer(i64::MAX).render(), "9223372036854775807");
    assert_eq!(ResultItem::Integer(i64::MIN).render(), "-9223372036854775808");
}

#[test]
fn empty_and_text_render_plain() {
    assert_eq!(ResultItem::Empty.render(), "");
    assert_eq!(ResultItem::Text("no escapes \"here\"".to_owned()).render(), "no escapes \"here\"");
    assert!(ResultItem::Empty.is_empty());
    assert!(!ResultItem::Integer(0).is_empty());
}

#[test]
fn decoded_pairs_encode_back_to_the_same_pairs() {
    let s = r#"RESULT a="hello world" b=-123423904 "a key"=8123 nowhitespace=8123.23 d=true"#;
    let pairs = result_line::from_string(s).unwrap();

    let mut enc = ResultLineStructurizer::new();
    for (k, v) in pairs.iter() {
        put(&mut enc, k, clone_item(v)).unwrap();
    }
    let line = enc.render();
    assert_eq!(line, s);

    let again = result_line::from_string(&line).unwrap();
    assert_eq!(pairs, again);
}

fn clone_item(v: &ResultItem) -> ResultItem {
    match v {
        ResultItem::Named(item) => ResultItem::Named(Box::new(NamedItem::new(
            clone_item(&item.name),
            clone_item(&item.value),
        ))),
        ResultItem::Integer(i) => ResultItem::Integer(*i),
        ResultItem::Float(t) => ResultItem::Float(t.clone()),
        ResultItem::Boolean(b) => ResultItem::Boolean(*b),
        ResultItem::Character(c) => ResultItem::Character(*c),
        ResultItem::Text(t) => ResultItem::Text(t.clone()),
        ResultItem::Empty => ResultItem::Empty,
    }
}
