use pdxscript::cwt;
use pdxscript::script::{
    block, cmp, container, kv, boolean, canonical_numeral, inline_math, item_children, numeral, param_block, param_text, parse, quoted,
    region_items, scalar, scalar_text, serialize, var_ref, walk_items, without_spans, Item, ItemKind,
    Operator, RegionPolicy, Scalar, Value, WalkControl,
};
use pdxscript::{ErrorKind, MAX_NESTING_DEPTH};

#[test]
fn operator_spellings_read_back() {
    for op in [
        Operator::Assign,
        Operator::Greater,
        Operator::Less,
        Operator::GreaterEqual,
        Operator::LessEqual,
        Operator::NotEqual,
    ] {
        assert_eq!(Operator::parse(op.as_str()), Some(op));
    }
    for text in ["", "=>", "<>", "==", "!", "= "] {
        assert_eq!(Operator::parse(text), None, "{text}");
    }
}

#[test]
fn canonical_numerals_are_fixpoints() {
    for (text, expected) in [
        ("007.50", "7.5"),
        ("-0", "0"),
        ("+12", "12"),
        (".5", "0.5"),
        ("-.250", "-0.25"),
        ("100", "100"),
        ("-3.000", "-3"),
    ] {
        let once = canonical_numeral(text).unwrap();
        assert_eq!(once, expected);
        assert_eq!(canonical_numeral(&once).unwrap(), once);
    }
    for text in ["", "+", "-", ".", "1.", "1e3", "1.2.3", "--1", "0x10", "1 "] {
        let error = canonical_numeral(text).unwrap_err();
        assert_eq!(error.message, "Invalid numeral");
        assert_eq!(error.kind, ErrorKind::Syntax);
    }
}

#[test]
fn constructed_scalars_always_write() {
    assert_eq!(scalar_text(&scalar("plain").unwrap()).unwrap(), "plain");
    assert_eq!(scalar_text(&scalar("a b").unwrap()).unwrap(), "\"a b\"");
    assert_eq!(scalar_text(&scalar("yes").unwrap()).unwrap(), "\"yes\"");
    assert_eq!(scalar_text(&scalar("12").unwrap()).unwrap(), "\"12\"");
    assert_eq!(scalar_text(&quoted("x").unwrap()).unwrap(), "\"x\"");
    assert_eq!(scalar_text(&numeral("007.50").unwrap()).unwrap(), "7.5");
    assert_eq!(scalar_text(&boolean(true)).unwrap(), "yes");
    assert_eq!(scalar_text(&boolean(false)).unwrap(), "no");
    assert_eq!(scalar_text(&var_ref("@size").unwrap()).unwrap(), "@size");
    assert_eq!(scalar_text(&inline_math("@[ a + 1 ]").unwrap()).unwrap(), "@[ a + 1 ]");
    assert_eq!(scalar("\"").unwrap_err().message, "Unrepresentable string");
    assert_eq!(quoted("a\"b").unwrap_err().message, "Unrepresentable quoted content");
    assert_eq!(var_ref("@a b").unwrap_err().message, "Invalid variable reference");
    assert_eq!(inline_math("@[a]]").unwrap_err().message, "Invalid inline math");
    let bad = Scalar::Variable { name: "size".into() };
    assert_eq!(scalar_text(&bad).unwrap_err().message, "Unrepresentable scalar");
}

#[test]
fn written_documents_end_with_a_newline() {
    assert_eq!(serialize(&[]).unwrap(), "\n");
    let doc = parse("a = 1 b = { c d }", "t").unwrap();
    assert_eq!(serialize(&doc.items).unwrap(), "a = 1\n\nb = { c d }\n");
    let doc = parse("a = { b = { c = 1 } }", "t").unwrap();
    assert_eq!(serialize(&doc.items).unwrap(), "a = {\n\tb = {\n\t\tc = 1\n\t}\n}\n");
    let leading = Item::new(ItemKind::Scalar(quoted("\u{feff}x").unwrap()));
    assert_eq!(serialize(&[leading]).unwrap(), "\"\u{feff}x\"\n");
    let bare = Item::new(ItemKind::Scalar(Scalar::String { value: "\u{feff}a".into(), quoted: false }));
    assert!(serialize(&[bare]).is_err());
    let marked = Item::new(ItemKind::Scalar(Scalar::String { value: "\u{feff}a".into(), quoted: true }));
    assert_eq!(serialize(&[marked]).unwrap(), "\"\u{feff}a\"\n");
}

#[test]
fn removing_locations_twice_changes_nothing() {
    let doc = parse("a = { b = 1 } [[P] c ] [[!Q] d = { ]", "t").unwrap();
    let once = without_spans(&doc.items);
    assert_eq!(without_spans(&once), once);
    assert!(once.iter().all(|item| item.span.is_none()));
    assert!(doc.items.iter().all(|item| item.span.is_some()));
    match &once[0].kind {
        ItemKind::Entry(e) => match &e.value {
            Value::Container(c) => assert!(c.items[0].span.is_none()),
            _ => panic!("expected a body"),
        },
        _ => panic!("expected an entry"),
    }
}

#[test]
fn skipping_regions_never_fails() {
    let doc = parse("[[P] ! ]", "t").unwrap();
    assert!(matches!(&doc.items[0].kind, ItemKind::ParamText { .. }));
    let mut visits = 0;
    let stopped = walk_items(
        &doc.items,
        (),
        |_, _| {
            visits += 1;
            WalkControl::Continue(())
        },
        RegionPolicy::Skip,
    )
    .unwrap();
    assert!(!stopped);
    assert_eq!(visits, 1);
    assert!(item_children(&doc.items[0], RegionPolicy::Skip).unwrap().is_empty());
    let error = item_children(&doc.items[0], RegionPolicy::Read("inner")).unwrap_err();
    assert_eq!(error.file, "inner");
    let error = walk_items(&doc.items, (), |_, _| WalkControl::Continue(()), RegionPolicy::Read("inner"))
        .unwrap_err();
    assert_eq!(error.file, "inner");
}

#[test]
fn traversal_is_pre_order_with_skip_and_stop() {
    let doc = parse("a = { b c } d [[P] e ]", "t").unwrap();
    let mut order = Vec::new();
    walk_items(
        &doc.items,
        0usize,
        |item, depth| {
            let label = match &item.kind {
                ItemKind::Entry(e) => e.key.clone(),
                ItemKind::Scalar(Scalar::String { value, .. }) => value.clone(),
                ItemKind::Container(_) => "{}".into(),
                ItemKind::Param { name, .. } => format!("[{name}]"),
                _ => "?".into(),
            };
            order.push((label, *depth));
            WalkControl::Continue(depth + 1)
        },
        RegionPolicy::Skip,
    )
    .unwrap();
    let expected: Vec<(String, usize)> = vec![
        ("a".into(), 0),
        ("{}".into(), 1),
        ("b".into(), 2),
        ("c".into(), 2),
        ("d".into(), 0),
        ("[P]".into(), 0),
        ("e".into(), 1),
    ];
    assert_eq!(order, expected);
    let mut seen = 0;
    let stopped = walk_items(
        &doc.items,
        (),
        |_, _| {
            seen += 1;
            if seen == 3 { WalkControl::Stop } else { WalkControl::Continue(()) }
        },
        RegionPolicy::Skip,
    )
    .unwrap();
    assert!(stopped);
    assert_eq!(seen, 3);
}

#[test]
fn children_are_owned_copies() {
    let doc = parse("a = { b = 1 } c = 2 [[P] x ]", "t").unwrap();
    let children = item_children(&doc.items[0], RegionPolicy::Skip).unwrap();
    assert_eq!(children.len(), 1);
    assert!(children[0].span.is_none());
    assert!(matches!(&children[0].kind, ItemKind::Container(c) if c.items.len() == 1));
    let children = item_children(&doc.items[1], RegionPolicy::Skip).unwrap();
    assert!(matches!(&children[0].kind, ItemKind::Scalar(Scalar::Number { lexeme }) if lexeme == "2"));
    let children = item_children(&doc.items[2], RegionPolicy::Skip).unwrap();
    assert_eq!(children.len(), 1);
    assert!(children[0].span.is_some());
}

#[test]
fn regions_read_flat() {
    let items = region_items("a = { b @[ c ] [[Q] d ] }", "r").unwrap();
    assert_eq!(items.len(), 4);
    assert!(matches!(&items[2].kind, ItemKind::Scalar(Scalar::Math { source }) if source == "@[ c ]"));
    assert!(matches!(&items[3].kind, ItemKind::ParamText { name, .. } if name == "Q"));
    assert!(region_items("\"open", "r").is_err());
}

#[test]
fn errors_and_their_display() {
    let error = parse("a = {\n= 1", "file.txt").unwrap_err();
    assert_eq!(error.kind, ErrorKind::Syntax);
    assert_eq!(error.file, "file.txt");
    assert_eq!(error.span.line, 2);
    assert_eq!(error.to_string(), format!("file.txt:2: {}", error.message));
    let deep = format!("{}{}", "a = {".repeat(MAX_NESTING_DEPTH + 1), "}".repeat(MAX_NESTING_DEPTH + 1));
    assert_eq!(parse(&deep, "deep").unwrap_err().kind, ErrorKind::NestingLimit);
    let mut item = Item::new(ItemKind::Scalar(boolean(true)));
    for _ in 0..=MAX_NESTING_DEPTH {
        item = param_block("P", vec![item], false).unwrap();
    }
    assert_eq!(serialize(&[item]).unwrap_err().kind, ErrorKind::NestingLimit);
}

#[test]
fn checked_regions_read_back() {
    assert!(param_text("P", " x = { ", true).is_ok());
    assert_eq!(param_text("P Q", " x ", false).unwrap_err().message, "Invalid parameter name");
    let item = param_text("P", " a = { # note\n", false).unwrap();
    let written = serialize(&[item]).unwrap();
    assert_eq!(written, "[[P] a = { # note\n]\n");
    let doc = parse(&written, "t").unwrap();
    assert!(matches!(&doc.items[0].kind, ItemKind::ParamText { text, .. } if text == " a = { # note\n"));
}

#[test]
fn cwt_diagnostics_are_ordered_by_location_then_kind() {
    let doc = cwt::parse("} ## a\n}\nx = { ## b\n", "c");
    let keys: Vec<(usize, &str)> = doc.diagnostics.iter().map(|d| (d.span.start, d.kind.as_str())).collect();
    let mut sorted = keys.clone();
    sorted.sort();
    assert_eq!(keys, sorted);
    assert_eq!(
        keys,
        vec![(0, "syntax"), (2, "orphan-annotation"), (7, "syntax"), (9, "syntax"), (15, "orphan-annotation")]
    );
}

#[test]
fn cwt_trims_unicode_whitespace_and_keeps_other_hashes_out() {
    let doc = cwt::parse("##\u{3000} text\u{a0}\r\n# plain\n##### five\nx = 1", "c");
    assert!(doc.diagnostics.is_empty());
    assert_eq!(doc.nodes[0].annotations.len(), 1);
    assert_eq!(doc.nodes[0].annotations[0].text, "text");
    assert_eq!(doc.nodes[0].annotations[0].hashes, 2);
    assert_eq!(doc.nodes[0].annotations[0].span.end, "##\u{3000} text\u{a0}\r".len());
}

#[test]
fn cwt_operators_keys_and_quotes() {
    let doc = cwt::parse("\"a b\" == \"c\\\"d\" e", "c");
    assert!(doc.diagnostics.is_empty());
    assert_eq!(doc.nodes.len(), 2);
    let key = doc.nodes[0].key.as_ref().unwrap();
    assert_eq!(key.text, "a b");
    assert!(key.quoted);
    assert_eq!(doc.nodes[0].op, Some(cwt::Operator::Equal));
    assert!(matches!(&doc.nodes[0].value, cwt::Value::Scalar(s) if s.text == "c\\\"d" && s.quoted));
    assert!(doc.nodes[1].key.is_none());
    assert_eq!(doc.nodes[1].value.span().start, 16);
    let doc = cwt::parse("= x", "c");
    assert_eq!(doc.diagnostics[0].message, "Operator has no key");
    let doc = cwt::parse("x = \"open", "c");
    assert_eq!(doc.diagnostics[0].message, "Missing assignment value");
    assert_eq!(doc.diagnostics[1].message, "Unterminated quoted string");
    assert_eq!(doc.diagnostics[1].span.start, 4);
    assert_eq!(doc.diagnostics[1].span.end, 9);
}

#[test]
fn cwt_nesting_limit_stops_parsing() {
    let source = format!("{}{}", "x = {".repeat(MAX_NESTING_DEPTH + 1), "}".repeat(MAX_NESTING_DEPTH + 1));
    let doc = cwt::parse(&source, "deep");
    let kinds: Vec<&str> = doc.diagnostics.iter().map(|d| d.kind.as_str()).collect();
    assert!(kinds.contains(&"nesting-limit"));
    let limit = doc.diagnostics.iter().find(|d| d.kind == "nesting-limit").unwrap();
    assert_eq!(limit.message, "Nesting exceeds supported limit; remaining input unparsed");
    assert_eq!(limit.span.end, source.len());
    assert!(doc.nodes.is_empty());
    let source = format!("{}{}", "x = {".repeat(MAX_NESTING_DEPTH), "}".repeat(MAX_NESTING_DEPTH));
    let doc = cwt::parse(&source, "deep");
    assert!(doc.diagnostics.is_empty());
    assert_eq!(doc.nodes.len(), 1);
}

#[test]
fn cwt_leading_mark_is_skipped_only_at_the_start() {
    let doc = cwt::parse("\u{feff}x = y", "c");
    assert!(doc.diagnostics.is_empty());
    assert_eq!(doc.nodes[0].key.as_ref().unwrap().text, "x");
    assert_eq!(doc.nodes[0].span.start, 3);
    let doc = cwt::parse("x = \u{feff}y", "c");
    assert!(matches!(&doc.nodes[0].value, cwt::Value::Scalar(s) if s.text == "\u{feff}y"));
}

#[test]
fn flat_documents_read_back() {
    let items = vec![
        kv("a", Value::Scalar(numeral("+01.50").unwrap())).unwrap(),
        cmp("b", Operator::GreaterEqual, var_ref("@x").unwrap()).unwrap(),
        kv("c d", Value::Scalar(quoted("two words").unwrap())).unwrap(),
        Item::new(ItemKind::Scalar(boolean(false))),
        Item::new(ItemKind::Scalar(inline_math("@\\[ $A$ ]").unwrap())),
        cmp("e", Operator::NotEqual, scalar("plain").unwrap()).unwrap(),
    ];
    let written = serialize(&items).unwrap();
    assert_eq!(
        written,
        "a = 1.5\n\nb >= @x\n\n\"c d\" = \"two words\"\n\nno\n\n@\\[ $A$ ]\n\ne != plain\n"
    );
    let doc = parse(&written, "flat").unwrap();
    assert!(doc.diagnostics.is_empty());
    assert_eq!(without_spans(&doc.items), items);
    assert_eq!(serialize(&doc.items).unwrap(), written);
}

#[test]
fn nested_documents_and_regions_read_back() {
    let inner = || {
        vec![
            kv("x", Value::Scalar(numeral("3").unwrap())).unwrap(),
            block("deep", vec![Item::new(ItemKind::Scalar(quoted("q r").unwrap()))]).unwrap(),
        ]
    };
    let items = vec![
        block("outer", vec![
            param_block("P", inner(), false).unwrap(),
            Item::new(ItemKind::Container(container(vec![], None).unwrap())),
        ])
        .unwrap(),
        param_block("Q", vec![], true).unwrap(),
        kv("list", Value::Container(container(vec![
            Item::new(ItemKind::Scalar(numeral("1").unwrap())),
            Item::new(ItemKind::Scalar(numeral("2").unwrap())),
        ], Some("rgb".to_string())).unwrap()))
        .unwrap(),
    ];
    let written = serialize(&items).unwrap();
    assert_eq!(
        written,
        "outer = {\n\t[[P]\n\t\tx = 3\n\t\tdeep = { \"q r\" }\n\t]\n\t{}\n}\n\n[[!Q]\n]\n\nlist = rgb { 1 2 }\n"
    );
    let doc = parse(&written, "nested").unwrap();
    assert!(doc.diagnostics.is_empty());
    assert_eq!(without_spans(&doc.items), items);
    assert_eq!(serialize(&doc.items).unwrap(), written);
}

#[test]
fn repaired_text_writes_a_fixpoint() {
    for text in ["x { y = 1 }\n}\na = {", "b = yes c = \"d e\" { f g }", "[[P] k = @[ 1 + 2 ] ]\n{ h }"] {
        let doc = parse(text, "fix").unwrap();
        let written = serialize(&doc.items).unwrap();
        let again = parse(&written, "fix").unwrap();
        assert!(again.diagnostics.is_empty());
        assert_eq!(without_spans(&again.items), without_spans(&doc.items));
        assert_eq!(serialize(&again.items).unwrap(), written);
    }
    let doc = parse("x { y = 1 }\n}", "fix").unwrap();
    assert_eq!(doc.diagnostics.len(), 2);
    assert_eq!(serialize(&doc.items).unwrap(), "x = {\n\ty = 1\n}\n");
}

#[test]
fn strings_written_quoted_read_back_quoted() {
    let items = vec![
        Item::new(ItemKind::Scalar(scalar("yes").unwrap())),
        kv("k", Value::Scalar(scalar("a b").unwrap())).unwrap(),
        Item::new(ItemKind::Scalar(scalar("plain").unwrap())),
    ];
    let written = serialize(&items).unwrap();
    assert_eq!(written, "\"yes\"\n\nk = \"a b\"\n\nplain\n");
    let doc = parse(&written, "quoted").unwrap();
    assert!(doc.diagnostics.is_empty());
    let read = without_spans(&doc.items);
    assert_eq!(read[0].kind, ItemKind::Scalar(quoted("yes").unwrap()));
    assert_eq!(read[1], kv("k", Value::Scalar(quoted("a b").unwrap())).unwrap());
    assert_eq!(read[2], items[2]);
    assert_eq!(serialize(&doc.items).unwrap(), written);
}

#[test]
fn scalar_texts_read_back() {
    for text in ["", "plain", "two words", "yes", "12", "@x", "a.b_c", "x\\\\y"] {
        let value = scalar(text).unwrap();
        let written = scalar_text(&value).unwrap();
        let doc = parse(&written, "scalar").unwrap();
        assert!(doc.diagnostics.is_empty());
        assert_eq!(doc.items.len(), 1);
        match &doc.items[0].kind {
            ItemKind::Scalar(Scalar::String { value, .. }) => assert_eq!(value, text),
            other => panic!("{other:?}"),
        }
    }
    let doc = parse(&scalar_text(&numeral("+01.50").unwrap()).unwrap(), "scalar").unwrap();
    assert_eq!(without_spans(&doc.items)[0].kind, ItemKind::Scalar(numeral("1.5").unwrap()));
}

#[test]
fn clones_are_equal_copies() {
    let doc = parse("a = { b \"c d\" } [[P] x = 1 ] [[Q] y = { ]", "clone").unwrap();
    let copy = doc.clone();
    assert_eq!(copy, doc);
    let item = doc.items[0].clone();
    assert_eq!(item, doc.items[0]);
    assert_eq!(doc.items[0].kind.clone(), doc.items[0].kind);
    let c = cwt::parse("x = { y = z ## note\n w }", "c.cwt");
    assert_eq!(c.clone(), c);
    assert_eq!(c.nodes[0].clone(), c.nodes[0]);
    assert_eq!(c.nodes[0].value.clone(), c.nodes[0].value);
}

#[test]
fn errors_compare_by_value() {
    let a = parse("a ?= b", "one").unwrap_err();
    let b = parse("a ?= b", "one").unwrap_err();
    let c = parse("a ?= b", "two").unwrap_err();
    assert_eq!(a, b);
    assert_ne!(a, c);
    assert_eq!(a.span, c.span);
    assert_eq!(a.message, c.message);
}

#[test]
fn reading_under_another_label_changes_only_the_label() {
    let src = "x { y = 1 }\n}";
    let one = parse(src, "one").unwrap();
    let two = parse(src, "two").unwrap();
    assert_eq!(one.items, two.items);
    assert_eq!(one.diagnostics, two.diagnostics);
    assert_eq!(two.file, "two");
    let region = parse("[[P] x = { ]", "anywhere").unwrap();
    assert!(region.diagnostics.is_empty());
    assert_eq!(without_spans(&region.items), vec![param_text("P", " x = { ", false).unwrap()]);
}

#[test]
fn reported_locations_run_forward_within_the_source() {
    let src = "\u{feff}a = { b = 1\n  c = { d }\n}\n[[P] e ]\n[[!Q] f = { ]\n} x\ny = {";
    let lines = src.matches('\n').count() + 1;
    let doc = parse(src, "f.txt").unwrap();
    assert_eq!(doc.file, "f.txt");
    assert!(!doc.diagnostics.is_empty());
    let mut pending: Vec<&Item> = doc.items.iter().collect();
    let mut seen = 0;
    while let Some(item) = pending.pop() {
        seen += 1;
        let s = item.span.unwrap();
        assert!(s.start <= s.end && s.end <= src.len());
        assert!(1 <= s.line && s.line <= s.end_line && s.end_line <= lines);
        match &item.kind {
            ItemKind::Entry(e) => {
                if let Value::Container(c) = &e.value {
                    pending.extend(c.items.iter());
                }
            }
            ItemKind::Container(c) => pending.extend(c.items.iter()),
            ItemKind::Param { items, .. } => pending.extend(items.iter()),
            _ => {}
        }
    }
    assert!(seen >= 6);
    for d in &doc.diagnostics {
        assert!(d.span.start <= d.span.end && d.span.end <= src.len());
        assert!(1 <= d.span.line && d.span.line <= d.span.end_line && d.span.end_line <= lines);
    }
}

#[test]
fn cwt_keys_start_before_their_values() {
    let doc = cwt::parse("a = 1\nb = {\n  c == \"x\"\n  d\n}\n", "c.txt");
    let mut pending: Vec<&cwt::Node> = doc.nodes.iter().collect();
    let mut keyed = 0;
    while let Some(n) = pending.pop() {
        let v = n.value.span();
        assert_eq!(n.span.end, v.end);
        assert_eq!(n.span.end_line, v.end_line);
        assert!(n.span.start <= v.start);
        if let Some(k) = &n.key {
            keyed += 1;
            assert_eq!(n.span.start, k.span.start);
            assert!(k.span.start < v.start);
        }
        if let cwt::Value::Block { nodes, .. } = &n.value {
            pending.extend(nodes.iter());
        }
    }
    assert_eq!(keyed, 3);
}

#[test]
fn verbatim_regions_round_trip_at_any_depth() {
    let items = vec![
        param_text("P", " a = { b ", false).unwrap(),
        block("b", vec![
            param_text("Q", " x = { ", true).unwrap(),
            param_block("R", vec![param_text("S", " } ", false).unwrap()], false).unwrap(),
        ])
        .unwrap(),
    ];
    let written = serialize(&items).unwrap();
    let doc = parse(&written, "verbatim").unwrap();
    assert!(doc.diagnostics.is_empty());
    assert_eq!(without_spans(&doc.items), items);
    assert_eq!(serialize(&doc.items).unwrap(), written);
}

#[test]
fn read_verbatim_regions_write_a_fixpoint() {
    for text in ["[[!P] x = { ]", "[[P] [[Q] } ] ]", "a = { [[P] b = { ] }\n[[Q] \" ] \" # ]\n @[ ] ]"] {
        let doc = parse(text, "t").unwrap();
        let written = serialize(&doc.items).unwrap();
        let again = parse(&written, "t").unwrap();
        assert!(again.diagnostics.is_empty());
        assert_eq!(without_spans(&again.items), without_spans(&doc.items));
        assert_eq!(serialize(&again.items).unwrap(), written);
    }
}
