//! Editing, merging and number comparison on concrete documents: one
//! case per law, per error and per edge the library handles.

use cson_edit::merge::merge_value;
use cson_edit::trivia::is_valid_prefix;
use cson_edit::writer::is_writable;
use cson_edit::{parse, CsonStr, Document, Indent, IndentChar, KeyStyle, Node, Number, Style, Value};

fn take_root(mut doc: Document) -> Value {
    std::mem::replace(doc.root_mut().value_mut(), Value::Null)
}

fn fresh(text: &str) -> Value {
    take_root(parse(text).expect("a valid document"))
}

fn num(text: &str) -> Number {
    Number::from_literal(text).expect("a valid literal")
}

// ---------------------------------------------------------------------
// Editing.

#[test]
fn removed_entry_comments_land_before_the_next_key_comment() {
    let mut doc = parse("a: 1\n# about b\nb: 2\n# about c\nc: 3\n").unwrap();
    doc.root_mut().value_mut().remove("b").unwrap();
    match doc.root().value() {
        Value::Object { entries, .. } => {
            let p = entries[1].key().prefix();
            let (b, c) = (p.find("# about b").unwrap(), p.find("# about c").unwrap());
            assert!(b < c);
        }
        _ => panic!("expected object"),
    }
}

#[test]
fn insert_then_get_finds_the_new_value() {
    let mut v = fresh("{a: 1}");
    v.insert("b", Node::new(Value::Bool(true))).unwrap();
    assert!(matches!(v.get("b").unwrap().value(), Value::Bool(true)));
    // an existing key still resolves to its first entry
    v.insert("a", Node::new(Value::Null)).unwrap();
    match v.get("a").unwrap().value() {
        Value::Number(n) => assert_eq!(n.as_str(), "1"),
        _ => panic!("expected number"),
    }
}

#[test]
fn insert_then_remove_leaves_only_the_node_comment_behind() {
    let mut v = Value::Object { entries: Vec::new(), trailing: String::new() };
    let mut n = Node::new(Value::Bool(false));
    n.set_prefix("\n# note").unwrap();
    v.insert("k", n).unwrap();
    let back = v.remove("k").unwrap();
    assert_eq!(back.prefix(), "");
    assert!(matches!(back.value(), Value::Bool(false)));
    match &v {
        Value::Object { entries, trailing } => {
            assert!(entries.is_empty());
            assert_eq!(trailing, "\n# note");
        }
        _ => panic!("expected object"),
    }
}

#[test]
fn remove_on_a_non_object_is_none() {
    let mut v = Value::Bool(true);
    assert!(v.remove("a").is_none());
    assert!(v.get("a").is_none());
    assert!(v.get_mut("a").is_none());
    assert!(v.remove_index(0).is_none());
}

#[test]
fn remove_index_out_of_bounds_is_none() {
    let mut v = fresh("[1]");
    assert!(v.remove_index(1).is_none());
    assert!(v.get_index_mut(1).is_none());
}

#[test]
fn get_mut_changes_the_value_and_keeps_the_comment() {
    let mut doc = parse("a: 1  # keep me\nb: 2\n").unwrap();
    let node = doc.root_mut().value_mut().get_mut("a").unwrap();
    node.set_value(Value::Str(CsonStr::new("x")));
    let text = doc.to_cson_string();
    assert!(text.contains("# keep me"));
    assert!(text.contains("\"x\""));
    assert!(!text.contains("a: 1"));
}

#[test]
fn get_index_mut_changes_one_element() {
    let mut v = fresh("[1, 2, 3]");
    v.get_index_mut(1).unwrap().set_value(Value::Null);
    assert!(matches!(v.get_index(1).unwrap().value(), Value::Null));
    match v.get_index(2).unwrap().value() {
        Value::Number(n) => assert_eq!(n.as_str(), "3"),
        _ => panic!("expected number"),
    }
}

#[test]
fn get_compares_whole_keys() {
    let v = fresh("{ab: 1}");
    assert!(v.get("a").is_none());
    assert!(v.get("abc").is_none());
    assert!(v.get("ab").is_some());
}

#[test]
fn set_prefix_accepts_only_trivia() {
    let mut n = Node::new(Value::Null);
    assert!(n.set_prefix("# fine\n  # also fine").is_ok());
    assert_eq!(n.prefix(), "# fine\n  # also fine");
    assert!(n.set_prefix("a: 1").is_err());
    assert_eq!(n.prefix(), "# fine\n  # also fine");
    assert!(n.set_prefix("  , ").is_err());
}

#[test]
fn entry_key_mut_can_rename_keeping_the_key_comment() {
    let mut doc = parse("# about a\na: 1\n").unwrap();
    if let Value::Object { entries, .. } = doc.root_mut().value_mut() {
        entries[0].key_mut().set_value(Value::Str(CsonStr::new("renamed")));
    }
    let text = doc.to_cson_string();
    assert!(text.contains("# about a"));
    assert!(text.contains("renamed: 1"));
}

#[test]
fn a_non_string_key_makes_the_document_unwritable() {
    let mut doc = parse("a: 1\n").unwrap();
    assert!(is_writable(&doc));
    if let Value::Object { entries, .. } = doc.root_mut().value_mut() {
        entries[0].key_mut().set_value(Value::Null);
    }
    assert!(!is_writable(&doc));
}

// ---------------------------------------------------------------------
// Writing with a chosen style.

#[test]
fn indent_render_repeats_the_character() {
    let i = Indent { ch: IndentChar::Tab, width: 1 };
    assert_eq!(i.render(3), "\t\t\t");
    let s = Indent { ch: IndentChar::Space, width: 4 };
    assert_eq!(s.render(2), "        ");
    assert_eq!(s.render(0), "");
}

#[test]
fn set_style_changes_how_keys_are_written() {
    let mut doc = parse("a: 1\n").unwrap();
    let mut style: Style = *doc.style();
    style.key_style = Some(KeyStyle::Single);
    doc.set_style(style);
    assert_eq!(doc.style().key_style(), KeyStyle::Single);
    assert!(doc.to_cson_string().contains("'a': 1"));
}

// ---------------------------------------------------------------------
// Parse errors.

fn parse_err(text: &str) -> (String, usize, usize) {
    match parse(text) {
        Ok(_) => panic!("expected an error for {:?}", text),
        Err(e) => (e.message, e.line, e.column),
    }
}

#[test]
fn bare_word_value_error_points_at_the_word() {
    let (m, line, col) = parse_err("a: foo");
    assert_eq!(m, "a bare (unquoted) string is only allowed as an object key, not as a value");
    assert_eq!((line, col), (1, 4));
}

#[test]
fn unexpected_character_error_quotes_the_character() {
    let (m, line, col) = parse_err("a: 1\nb: @");
    assert_eq!(m, "unexpected character '@'");
    assert_eq!((line, col), (2, 4));
}

#[test]
fn missing_separator_is_an_error() {
    let (m, line, col) = parse_err("a 1");
    assert_eq!(m, "expected ':' or '='");
    assert_eq!((line, col), (1, 3));
}

#[test]
fn unclosed_object_is_an_error_at_the_end() {
    let (m, line, col) = parse_err("{a: 1\n");
    assert_eq!(m, "expected '}'");
    assert_eq!((line, col), (2, 1));
    let (m, line, col) = parse_err("{a: 1");
    assert_eq!(m, "expected ',' or a newline between object entries");
    assert_eq!((line, col), (1, 6));
}

#[test]
fn unterminated_string_is_an_error() {
    let (m, _, col) = parse_err("a: \"abc");
    assert_eq!(m, "unterminated string literal");
    assert_eq!(col, 4);
}

#[test]
fn number_errors() {
    assert_eq!(parse_err("a: 1.").0, "expected digit after decimal point");
    assert_eq!(parse_err("a: 1e").0, "expected digit in exponent");
}

#[test]
fn leading_zero_then_digit_is_two_tokens_without_separator() {
    let (m, line, col) = parse_err("{\"a\": 01}");
    assert_eq!(m, "expected ',' or a newline between object entries");
    assert_eq!((line, col), (1, 8));
}

#[test]
fn unicode_escapes_decode_surrogate_pairs_and_reject_lone_halves() {
    let doc = parse("a: \"\\uD83D\\uDE00 \\u00e9\"").unwrap();
    match doc.root().value().get("a").unwrap().value() {
        Value::Str(s) => assert_eq!(s.as_str(), "\u{1f600} \u{e9}"),
        _ => panic!("expected string"),
    }
    assert!(parse("a: \"\\uDE00\"").is_err());
    assert!(parse("a: \"\\u12\"").is_err());
}

// ---------------------------------------------------------------------
// Numbers.

#[test]
fn from_literal_accepts_only_number_literals() {
    assert_eq!(num("-0.5e+3").as_str(), "-0.5e+3");
    for bad in ["", "-", "01", "1.", ".5", "1e", "abc", "1 ", "+1", "0x10"] {
        assert!(Number::from_literal(bad).is_none(), "{:?}", bad);
    }
}

#[test]
fn numeric_eq_compares_values_exactly() {
    assert!(num("1e2").numeric_eq(&num("100")));
    assert!(num("100").numeric_eq(&num("1e2")));
    assert!(num("-0").numeric_eq(&num("0.000")));
    assert!(num("0.001").numeric_eq(&num("1e-3")));
    assert!(num("10").numeric_eq(&num("1E1")));
    assert!(num("120.0").numeric_eq(&num("1.2e+2")));
    assert!(!num("1.5").numeric_eq(&num("1.6")));
    assert!(!num("-1").numeric_eq(&num("1")));
    assert!(!num("9007199254740993").numeric_eq(&num("9007199254740992")));
    assert!(!num("1").numeric_eq(&num("0")));
}

#[test]
fn numeric_eq_handles_exponents_of_any_size() {
    assert!(num("1e99999999999999999999999").numeric_eq(&num("10e99999999999999999999998")));
    assert!(num("1e-99999999999999999999999").numeric_eq(&num("0.1e-99999999999999999999998")));
    assert!(!num("1e99999999999999999999999").numeric_eq(&num("1e99999999999999999999998")));
    assert!(!num("1e99999999999999999999999").numeric_eq(&num("1e-99999999999999999999999")));
}

// ---------------------------------------------------------------------
// Merging.

#[test]
fn merging_the_same_data_changes_nothing() {
    let src = "# top\nname: \"svc\"  # prod\nport: 8080\nratio: 1.50\nlist: [1, 2]\n";
    let mut doc = parse(src).unwrap();
    let before = doc.to_cson_string();
    merge_value(doc.root_mut().value_mut(), fresh("{list: [1, 2.0], ratio: 1.5, port: 8080, name: \"svc\"}"));
    assert_eq!(doc.to_cson_string(), before);
    match doc.root().value().get("ratio").unwrap().value() {
        Value::Number(n) => assert_eq!(n.as_str(), "1.50"),
        _ => panic!("expected number"),
    }
}

#[test]
fn merging_the_same_data_with_a_repeated_key_changes_nothing() {
    let mut doc = parse("a: 1  # one\na: 1.0\nb: 2\n").unwrap();
    let before = doc.to_cson_string();
    merge_value(doc.root_mut().value_mut(), fresh("{a: 1, a: 1.00, b: 2}"));
    assert_eq!(doc.to_cson_string(), before);
}

#[test]
fn merging_a_changed_scalar_keeps_its_comment() {
    let mut doc = parse("name: \"svc\"\nport: 8080  # ops override\n").unwrap();
    merge_value(doc.root_mut().value_mut(), fresh("{name: \"svc\", port: 9090}"));
    let text = doc.to_cson_string();
    assert!(text.contains("9090"));
    assert!(!text.contains("8080"));
    assert!(text.contains("# ops override"));
}

#[test]
fn merging_drops_missing_keys_and_moves_their_comments() {
    let mut doc = parse("a: 1\n# about b\nb: 2\nc: 3\n").unwrap();
    merge_value(doc.root_mut().value_mut(), fresh("{a: 1, c: 3}"));
    match doc.root().value() {
        Value::Object { entries, .. } => {
            assert_eq!(entries.len(), 2);
            assert_eq!(entries[1].key_str(), Some("c"));
            assert!(entries[1].key().prefix().contains("# about b"));
        }
        _ => panic!("expected object"),
    }
}

#[test]
fn merging_appends_new_keys_after_the_old_ones() {
    let mut doc = parse("b: 1\na: 2\n").unwrap();
    merge_value(doc.root_mut().value_mut(), fresh("{z: true, a: 2, b: 1}"));
    match doc.root().value() {
        Value::Object { entries, .. } => {
            let keys: Vec<_> = entries.iter().map(|e| e.key_str().unwrap()).collect();
            assert_eq!(keys, vec!["b", "a", "z"]);
        }
        _ => panic!("expected object"),
    }
}

#[test]
fn merging_a_shorter_array_moves_dropped_comments_to_the_end() {
    let mut doc = parse("[\n  1\n  # about two\n  2\n  # about three\n  3\n]\n").unwrap();
    merge_value(doc.root_mut().value_mut(), fresh("[1]"));
    match doc.root().value() {
        Value::Array { items, trailing } => {
            assert_eq!(items.len(), 1);
            let (two, three) = (trailing.find("# about two").unwrap(), trailing.find("# about three").unwrap());
            assert!(two < three);
        }
        _ => panic!("expected array"),
    }
}

#[test]
fn merging_a_longer_array_appends() {
    let mut doc = parse("xs: [1]\n").unwrap();
    merge_value(doc.root_mut().value_mut(), fresh("{xs: [1, 2, 3]}"));
    match doc.root().value().get("xs").unwrap().value() {
        Value::Array { items, .. } => assert_eq!(items.len(), 3),
        _ => panic!("expected array"),
    }
}

#[test]
fn merging_a_different_shape_replaces_the_value_but_not_the_comment() {
    let mut doc = parse("# about a\na: 1\n").unwrap();
    merge_value(doc.root_mut().value_mut(), fresh("{a: [true]}"));
    let text = doc.to_cson_string();
    assert!(text.contains("# about a"));
    assert!(matches!(doc.root().value().get("a").unwrap().value(), Value::Array { .. }));
}

#[test]
fn merging_into_duplicate_keys_touches_only_the_first() {
    let mut doc = parse("{a: 1, a: 2}").unwrap();
    merge_value(doc.root_mut().value_mut(), fresh("{a: 5}"));
    match doc.root().value() {
        Value::Object { entries, .. } => {
            assert_eq!(entries.len(), 2);
            match (entries[0].value().value(), entries[1].value().value()) {
                (Value::Number(x), Value::Number(y)) => {
                    assert_eq!(x.as_str(), "5");
                    assert_eq!(y.as_str(), "2");
                }
                _ => panic!("expected numbers"),
            }
        }
        _ => panic!("expected object"),
    }
}

// ---------------------------------------------------------------------
// Reading back what was written, and what parsing leaves in place.

fn trivia_all_valid(node: &Node) -> bool {
    if !is_valid_prefix(node.prefix()) {
        return false;
    }
    match node.value() {
        Value::Array { items, trailing } => is_valid_prefix(trailing) && items.iter().all(trivia_all_valid),
        Value::Object { entries, trailing } => {
            is_valid_prefix(trailing) && entries.iter().all(|e| trivia_all_valid(e.key()) && trivia_all_valid(e.value()))
        }
        _ => true,
    }
}

#[test]
fn strings_with_escapes_read_back_unchanged() {
    let tricky = "quote \" apostrophe ' backslash \\ tab \t nl \n cr \r bell \u{7} e\u{301} \u{1f600}";
    for key_style in [KeyStyle::Double, KeyStyle::Single] {
        let mut v = Value::Object { entries: Vec::new(), trailing: String::new() };
        v.insert(tricky, Node::new(Value::Str(CsonStr::new(tricky)))).unwrap();
        let mut doc = Document::from_node(Node::new(v));
        let mut style = Style::default();
        style.key_style = Some(key_style);
        doc.set_style(style);
        let text = doc.to_cson_string();
        let back = parse(&text).unwrap();
        match back.root().value() {
            Value::Object { entries, .. } => {
                assert_eq!(entries[0].key_str(), Some(tricky));
                match entries[0].value().value() {
                    Value::Str(s) => assert_eq!(s.as_str(), tricky),
                    _ => panic!("expected string"),
                }
            }
            _ => panic!("expected object"),
        }
    }
}

#[test]
fn parsed_trivia_holds_only_comments() {
    let doc = parse("# a\nx: [\n  1 # one\n  # two\n  2\n]  # closer\ny: |v\n  # mid\n  |w\n# end\n").unwrap();
    assert!(trivia_all_valid(doc.root()));
    assert!(is_valid_prefix(doc.suffix()));
}

#[test]
fn parsing_never_sets_the_indent_and_bare_roots_are_objects() {
    let doc = parse("a = 1\nb: {c: [1, 2]}\n").unwrap();
    assert!(doc.style().indent.is_none());
    assert!(doc.bare_root());
    assert!(matches!(doc.root().value(), Value::Object { .. }));
    let arr = parse("[1, 2]").unwrap();
    assert!(!arr.bare_root());
}

#[test]
fn first_observed_separator_wins() {
    let doc = parse("a = 1\nb: 2\n").unwrap();
    assert_eq!(doc.style().separator(), cson_edit::Separator::Equals);
    let doc = parse("a: 1\nb = 2\n").unwrap();
    assert_eq!(doc.style().separator(), cson_edit::Separator::Colon);
}

#[test]
fn editing_a_parsed_document_keeps_only_comments_in_trivia() {
    let mut doc = parse("# head\na: 1 # one\n# about b\nb: [\n  1\n  # two\n  2\n]\n").unwrap();
    let mut noted = Node::new(Value::Bool(true));
    noted.set_prefix("\n# new").unwrap();
    doc.root_mut().value_mut().insert("c", noted).unwrap();
    let removed = doc.root_mut().value_mut().remove("a").unwrap();
    assert!(trivia_all_valid(&removed));
    let list = doc.root_mut().value_mut().get_mut("b").unwrap().value_mut();
    list.push(Node::new(Value::Null)).unwrap();
    let dropped = list.remove_index(0).unwrap();
    assert!(trivia_all_valid(&dropped));
    assert!(trivia_all_valid(doc.root()));
}

// ---------------------------------------------------------------------
// The round trip through the writer, and where it stops.

fn comment_lines_of(text: &str) -> Vec<String> {
    text.lines().map(|l| l.trim()).filter(|l| l.starts_with('#')).map(|l| l.to_string()).collect()
}

#[test]
fn written_text_reads_back_with_its_values_comments_and_style() {
    let src = "# head\n{\n  # about a\n  a = 'x',  \n  b = [1, 2,], c = {\"d e\": null}\n}\n# tail\n";
    let doc = parse(src).unwrap();
    assert!(doc.style().commas());
    assert!(doc.style().trailing_comma());
    let a = doc.to_cson_string();
    let back = parse(&a).unwrap();
    assert_eq!(back.to_cson_string(), a);
    assert_eq!(comment_lines_of(&a), vec!["# head", "# about a", "# tail"]);
    assert_eq!(back.style().separator(), cson_edit::Separator::Equals);
    assert_eq!(back.style().value_quote(), cson_edit::Quote::Single);
    assert_eq!(back.style().key_style(), KeyStyle::Bare);
    assert!(back.style().commas());
    assert!(back.style().trailing_comma());
    assert!(!back.bare_root());
}

#[test]
fn a_trailing_comma_without_commas_is_not_read_back() {
    let doc = parse("[1\n2,]\n").unwrap();
    assert!(!doc.style().commas());
    assert!(doc.style().trailing_comma());
    let a = doc.to_cson_string();
    assert!(!a.contains(','));
    let back = parse(&a).unwrap();
    assert!(!back.style().trailing_comma());
    assert_eq!(back.to_cson_string(), a);
}

#[test]
fn single_quotes_are_not_read_back_when_every_string_is_verbatim() {
    let doc = parse("a: |p\n  |q\nb: 'x\\ny'\n").unwrap();
    assert!(doc.style().verbatim_strings());
    assert_eq!(doc.style().value_quote(), cson_edit::Quote::Single);
    let a = doc.to_cson_string();
    let back = parse(&a).unwrap();
    assert_eq!(back.style().value_quote(), cson_edit::Quote::Double);
    assert_eq!(back.to_cson_string(), a);
}

#[test]
fn a_key_in_the_lost_value_quote_breaks_the_fixpoint() {
    let doc = parse("a: |p\n  |q\n\"b c\": 'x\\ny'\n").unwrap();
    let a = doc.to_cson_string();
    assert!(a.contains("'b c'"));
    let b = parse(&a).unwrap().to_cson_string();
    assert!(b.contains("\"b c\""));
    assert_ne!(b, a);
}

#[test]
fn a_bare_written_key_that_reads_as_a_negative_number_does_not_parse_back() {
    let doc = parse("a: 1\n\"-5\": 2\n").unwrap();
    let a = doc.to_cson_string();
    assert!(a.contains("-5: 2"));
    assert!(parse(&a).is_err());
}

#[test]
fn a_brace_less_root_is_written_without_indentation() {
    let mut doc = parse("name: \"svc\"").unwrap();
    doc.set_style(Style {
        separator: Some(cson_edit::Separator::Equals),
        value_quote: Some(cson_edit::Quote::Single),
        indent: Some(Indent { ch: IndentChar::Space, width: 4 }),
        ..Style::default()
    });
    assert_eq!(doc.to_cson_string(), "name = 'svc'\n");
    let doc = parse("a: 1\nb: [2]\n").unwrap();
    assert_eq!(doc.to_cson_string(), "a: 1\nb: [\n  2\n]\n");
}

#[test]
fn a_bare_first_key_starting_with_a_byte_order_mark_does_not_read_back() {
    let doc = parse("\u{feff}\u{feff}k: 1\n").unwrap();
    assert_eq!(doc.root().value().get("\u{feff}k").map(|n| n.prefix()), Some(""));
    let a = doc.to_cson_string();
    assert!(a.starts_with('\u{feff}'));
    let back = parse(&a).unwrap();
    assert!(back.root().value().get("\u{feff}k").is_none());
    assert!(back.root().value().get("k").is_some());
}

// ---------------------------------------------------------------------
// Tokens, comment slots and the writer's text.

#[test]
fn lexed_tokens_stand_in_the_text_in_order() {
    let src: Vec<char> = "ab: -12 # c\nx = |v #w\n".chars().collect();
    let items = cson_edit::lexer::lex(&src).unwrap();
    let mut last_end = 0;
    let mut texts = Vec::new();
    for it in &items {
        if let cson_edit::lexer::Item::Real(t, sp) = it {
            assert!(last_end <= sp.start && sp.start < sp.end && sp.end <= src.len());
            last_end = sp.end;
            let slice: String = src[sp.start..sp.end].iter().collect();
            match t {
                cson_edit::lexer::RealTok::Number(r) | cson_edit::lexer::RealTok::Bare(r) => assert_eq!(*r, slice),
                cson_edit::lexer::RealTok::VerbatimFragment(r) => assert_eq!(format!("|{}", r), slice),
                _ => {}
            }
            texts.push(slice);
        }
    }
    assert_eq!(texts, vec!["ab", ":", "-12", "x", "=", "|v #w"]);
}

#[test]
fn each_comment_lands_in_exactly_one_slot() {
    let src: Vec<char> = "a: [  # c1\n  1  # c2\n]  # c3\n# c4\n".chars().collect();
    let items = cson_edit::lexer::lex(&src).unwrap();
    let info = cson_edit::trivia::resolve(&items);
    let mut found: Vec<String> = Vec::new();
    for p in &info.prefixes {
        for line in p.lines() {
            if !line.is_empty() {
                found.push(line.to_string());
            }
        }
    }
    found.sort();
    assert_eq!(found, vec!["# c1", "# c2", "# c3", "# c4"]);
    assert_eq!(info.prefixes[0], "\n# c1\n# c3");
    assert_eq!(info.prefixes[3], "\n# c2");
    assert_eq!(info.prefixes[5], "\n# c4");
}

#[test]
fn the_writer_reads_only_the_effective_style() {
    let doc = parse("a: 'x'\nb: [1, 2]\n").unwrap();
    let mut explicit = doc.style().clone();
    explicit.separator = Some(doc.style().separator());
    explicit.key_style = Some(doc.style().key_style());
    explicit.commas = Some(doc.style().commas());
    explicit.trailing_comma = Some(doc.style().trailing_comma());
    explicit.indent = Some(doc.style().indent());
    explicit.verbatim_strings = Some(doc.style().verbatim_strings());
    let before = doc.to_cson_string();
    let mut doc2 = parse("a: 'x'\nb: [1, 2]\n").unwrap();
    doc2.set_style(explicit);
    assert_eq!(doc2.to_cson_string(), before);
}

#[test]
fn written_text_ends_with_one_line_break() {
    assert_eq!(parse("").unwrap().to_cson_string(), "\n");
    let t = parse("# top\n\n{a: 1}\n\n# end\n\n").unwrap().to_cson_string();
    assert!(!t.starts_with('\n') && t.ends_with('\n') && !t.ends_with("\n\n"));
}
