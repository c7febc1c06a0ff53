use pdxscript::script::{
    RegionPolicy, WalkControl, block, boolean, canonical_numeral, inline_math, kv, list, numeral, param_text,
    parse, quoted, scalar, serialize, var_ref, walk_items, without_spans, Item, ItemKind, Operator, Repair,
    Scalar, Value,
};
use pdxscript::{ErrorKind, MAX_NESTING_DEPTH};

fn roundtrip(text: &str) {
    let doc = parse(text, "test").unwrap();
    let written = serialize(&doc.items).unwrap();
    let again = parse(&written, "roundtrip").unwrap();
    assert_eq!(without_spans(&doc.items), without_spans(&again.items));
    assert!(again.diagnostics.is_empty());
    assert_eq!(written, serialize(&again.items).unwrap());
}

#[test]
fn grammar_and_roundtrips() {
    for source in [
        "",
        "a = yes a = no",
        "{ a OR = { x > 3 } {} }",
        "color = hsv { .1 +0.10 3 }",
        "x = rgb\n{}",
        "@x = 9007199254740993\ny = @x",
        "v = @[ 1 + 2 ]",
        "v = @\\[ $A$ + 2 ]",
        "[[P] x = yes ]",
        "[[!P] x = { ]",
        "[[P] \" ] \" # ]\n @[ ] ]",
        "\"a b\" != \"yes\"",
        "\u{feff}a = 1",
        "v = \"multi\nline\"",
        "[[P] [[Q] } ] ]",
    ] {
        roundtrip(source);
    }
}

#[test]
fn documented_repairs_and_errors() {
    for (source, kind) in [
        ("}", Repair::StrayClosingBrace),
        ("x = {", Repair::UnclosedAtEof),
        ("x { y = 1 }", Repair::OperatorLessEntry),
    ] {
        let doc = parse(source, "bad").unwrap();
        assert_eq!(doc.diagnostics[0].kind, kind);
        roundtrip(source);
    }
    for source in [
        "a == b",
        "a ?= b",
        "\"oops",
        "@[oops",
        "[[P]oops",
        "]",
        "= 1",
        "a =",
        "x = [[P] a ]",
    ] {
        assert!(parse(source, "bad").is_err(), "{source}");
    }
}

#[test]
fn exact_numerals_and_checked_construction() {
    assert_eq!(canonical_numeral("-000.000").unwrap(), "0");
    assert_eq!(canonical_numeral("+000.1200").unwrap(), "0.12");
    assert!(numeral("1e3").is_err());
    assert!(quoted("x\\").is_err());
    assert!(inline_math("@[x]y").is_err());
    assert!(var_ref("x").is_err());
    assert!(param_text("P", " x = 1 ", false).is_err());
    assert!(param_text("P", " ] ", false).is_err());
    assert!(param_text("P", " x = { ", false).is_ok());
    let items = vec![
        kv("key", Value::Scalar(scalar("yes").unwrap())).unwrap(),
        list(
            "values",
            vec![numeral("999999999999999999999").unwrap(), boolean(true)],
        )
        .unwrap(),
    ];
    roundtrip(&serialize(&items).unwrap());
    assert!(
        serialize(&[Item::new(ItemKind::Scalar(Scalar::Number {
            lexeme: "01".into()
        }))])
        .is_err()
    );
}

#[test]
fn region_fallback_keeps_text_and_comments() {
    let doc = parse("[[P] #keep\n x = { ]", "r").unwrap();
    assert!(matches!(&doc.items[0].kind,ItemKind::ParamText{text,..} if text == " #keep\n x = { "));
    assert!(doc.diagnostics.is_empty());
    let doc = parse("[[P] x { y = 1 } ]", "r").unwrap();
    assert!(matches!(&doc.items[0].kind, ItemKind::Param { .. }));
    assert_eq!(doc.diagnostics[0].kind, Repair::OperatorLessEntry);
}

#[test]
fn traversal_context_skip_stop_and_flat_regions() {
    let doc = parse("a = { b = 1 }\n[[P] x = { ]", "walk").unwrap();
    let mut seen = Vec::new();
    let stopped = walk_items(
        &doc.items,
        0,
        |item, depth| {
            seen.push(*depth);
            if matches!(&item.kind,ItemKind::Entry(e) if e.key=="a") {
                WalkControl::Skip
            } else {
                WalkControl::Continue(depth + 1)
            }
        },
        RegionPolicy::Read("r"),
    )
    .unwrap();
    assert!(!stopped);
    assert_eq!(seen, vec![0, 0, 1]);
    assert!(walk_items(&doc.items, (), |_, _| WalkControl::Stop, RegionPolicy::Skip).unwrap());
}

#[test]
fn nesting_boundary_does_not_use_call_stack() {
    let source = format!(
        "{}{}",
        "{".repeat(MAX_NESTING_DEPTH),
        "}".repeat(MAX_NESTING_DEPTH)
    );
    let doc = parse(&source, "deep").unwrap();
    assert!(serialize(&doc.items).is_ok());
    assert!(
        !walk_items(
            &doc.items,
            (),
            |_, _| WalkControl::Continue(()),
            RegionPolicy::Skip
        )
        .unwrap()
    );
    let normalized = without_spans(&doc.items);
    assert_eq!(normalized.len(), 1);
    let invalid = format!("{{{source}}}");
    assert_eq!(
        parse(&invalid, "deep").unwrap_err().kind,
        ErrorKind::NestingLimit
    );
    let regions = format!(
        "{}{}",
        "[[P]".repeat(MAX_NESTING_DEPTH + 1),
        "]".repeat(MAX_NESTING_DEPTH + 1)
    );
    assert_eq!(
        parse(&regions, "deep").unwrap_err().kind,
        ErrorKind::NestingLimit
    );
}

#[test]
fn operator_spellings_agree_across_parsing_writing_and_serde() {
    for (operator, spelling) in [
        (Operator::Assign, "="),
        (Operator::Greater, ">"),
        (Operator::Less, "<"),
        (Operator::GreaterEqual, ">="),
        (Operator::LessEqual, "<="),
        (Operator::NotEqual, "!="),
    ] {
        assert_eq!(operator.as_str(), spelling);
        assert_eq!(Operator::parse(spelling), Some(operator));
    }

    assert_eq!(Operator::parse("=="), None);
}
