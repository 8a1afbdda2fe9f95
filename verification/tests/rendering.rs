use qtpl::instruction::Instruction;
use qtpl::render::{
    execute, execute_one, lookup, render, Binding, Bounded, Buffer, Fragment, Sink, SinkError,
    Value,
};

fn lit(s: &str) -> Instruction {
    Instruction::WriteLiteral(s.as_bytes().to_vec())
}

fn escaped(e: &str) -> Instruction {
    Instruction::WriteEscaped(e.to_string())
}

fn quoted(e: &str) -> Instruction {
    Instruction::WriteQuoted(e.to_string())
}

fn raw(e: &str) -> Instruction {
    Instruction::WriteRawBytes(e.to_string())
}

fn child(e: &str) -> Instruction {
    Instruction::InvokeChild(e.to_string())
}

fn text(expr: &str, value: &str) -> Binding {
    Binding { expr: expr.to_string(), value: Value::Text(value.to_string()) }
}

fn bytes(expr: &str, value: &[u8]) -> Binding {
    Binding { expr: expr.to_string(), value: Value::Bytes(value.to_vec()) }
}

fn fragment(expr: &str, instructions: Vec<Instruction>, values: Vec<Binding>) -> Binding {
    Binding { expr: expr.to_string(), value: Value::Child(Fragment { instructions, values }) }
}

fn rendered(list: Vec<Instruction>, values: Vec<Binding>) -> String {
    String::from_utf8(render(&list, &values)).unwrap()
}

#[test]
fn empty_list_writes_nothing() {
    assert_eq!(render(&vec![], &vec![]), b"");
    assert_eq!(render(&vec![], &vec![text("x", "y")]), b"");
}

#[test]
fn literals_are_written_in_order() {
    assert_eq!(rendered(vec![lit("a"), lit(""), lit("bc")], vec![]), "abc");
}

#[test]
fn escape_replaces_the_six_characters() {
    assert_eq!(
        rendered(vec![escaped("v")], vec![text("v", "&<>\"'/")]),
        "&amp;&lt;&gt;&quot;&#x27;&#x2f;"
    );
}

#[test]
fn escape_does_not_escape_twice() {
    assert_eq!(rendered(vec![escaped("v")], vec![text("v", "&amp;")]), "&amp;amp;");
    assert_eq!(rendered(vec![escaped("v")], vec![text("v", "&lt;b&gt;")]), "&amp;lt;b&amp;gt;");
}

#[test]
fn escape_is_the_identity_on_plain_text() {
    for s in ["", "world", "Hello, world!", "a b\tc\n", "1 + 1 = 2", "h\u{e9}llo \u{2713} \u{4e2d}\u{6587}", "{}[]()#;:"] {
        assert_eq!(rendered(vec![escaped("v")], vec![text("v", s)]), s);
    }
}

#[test]
fn escape_keeps_length_and_order_of_the_rest() {
    let value = r#"You're <script>alert("x")</script>!"#;
    assert_eq!(
        rendered(vec![escaped("v")], vec![text("v", value)]),
        "You&#x27;re &lt;script&gt;alert(&quot;x&quot;)&lt;&#x2f;script&gt;!"
    );
}

#[test]
fn escape_passes_text_beyond_ascii_through() {
    assert_eq!(
        rendered(vec![escaped("v")], vec![text("v", "<\u{e9}>&\u{1F600}")]),
        "&lt;\u{e9}&gt;&amp;\u{1F600}"
    );
}

#[test]
fn escape_of_a_long_value() {
    let value = "<a href='/x?y=1&z=2'>\"q\"</a> ".repeat(40);
    let expected = "&lt;a href=&#x27;&#x2f;x?y=1&amp;z=2&#x27;&gt;&quot;q&quot;&lt;&#x2f;a&gt; ".repeat(40);
    assert_eq!(rendered(vec![escaped("v")], vec![text("v", &value)]), expected);
}

#[test]
fn quote_wraps_and_does_not_escape() {
    assert_eq!(rendered(vec![quoted("v")], vec![text("v", "world")]), "\"world\"");
    assert_eq!(rendered(vec![quoted("v")], vec![text("v", "")]), "\"\"");
    let attack = r#"" onclick="alert('x')"><script>&"#;
    assert_eq!(
        rendered(vec![quoted("v")], vec![text("v", attack)]),
        format!("\"{}\"", attack)
    );
}

#[test]
fn raw_bytes_are_written_as_they_are() {
    assert_eq!(render(&vec![raw("v")], &vec![bytes("v", b"<b>&</b>")]), b"<b>&</b>");
    assert_eq!(render(&vec![raw("v")], &vec![bytes("v", &[0xff, 0x00, 0x80])]), [0xff, 0x00, 0x80]);
    assert_eq!(render(&vec![raw("v")], &vec![bytes("v", b"")]), b"");
}

#[test]
fn child_writes_its_own_list_with_its_own_values() {
    let values = vec![
        text("name", "outer"),
        fragment("page()", vec![lit("["), escaped("name"), lit("]")], vec![text("name", "<inner>")]),
    ];
    assert_eq!(
        rendered(vec![escaped("name"), lit(" "), child("page()"), lit(" "), escaped("name")], values),
        "outer [&lt;inner&gt;] outer"
    );
}

#[test]
fn children_nest() {
    let leaf = fragment("leaf", vec![lit("x"), quoted("v")], vec![text("v", "1")]);
    let middle = fragment("middle", vec![lit("("), child("leaf"), child("leaf"), lit(")")], vec![leaf]);
    let values = vec![middle];
    assert_eq!(rendered(vec![child("middle"), lit("-"), child("middle")], values), "(x\"1\"x\"1\")-(x\"1\"x\"1\")");
}

#[test]
fn child_does_not_see_the_values_of_its_parent() {
    let values = vec![text("name", "outer"), fragment("c", vec![escaped("name"), lit("!")], vec![])];
    assert_eq!(rendered(vec![child("c")], values), "!");
}

#[test]
fn unbound_expression_writes_nothing() {
    let list = vec![lit("a"), escaped("x"), quoted("x"), raw("x"), child("x"), lit("b")];
    assert_eq!(rendered(list, vec![text("y", "no")]), "ab");
}

#[test]
fn value_of_another_kind_writes_nothing() {
    assert_eq!(rendered(vec![lit("a"), escaped("x"), lit("b")], vec![bytes("x", b"no")]), "ab");
    assert_eq!(rendered(vec![lit("a"), quoted("x"), lit("b")], vec![bytes("x", b"no")]), "ab");
    assert_eq!(rendered(vec![lit("a"), raw("x"), lit("b")], vec![text("x", "no")]), "ab");
    assert_eq!(rendered(vec![lit("a"), child("x"), lit("b")], vec![text("x", "no")]), "ab");
    assert_eq!(
        rendered(vec![lit("a"), escaped("x"), lit("b")], vec![fragment("x", vec![lit("no")], vec![])]),
        "ab"
    );
}

#[test]
fn first_binding_of_an_expression_counts() {
    let values = vec![text("x", "one"), text("x", "two"), bytes("x", b"three")];
    assert_eq!(rendered(vec![escaped("x"), raw("x")], values), "one");
}

#[test]
fn lookup_finds_the_first_binding() {
    let values = vec![text("a", "1"), text("b", "2"), text("a", "3")];
    assert_eq!(lookup(&values, "a"), Some(0));
    assert_eq!(lookup(&values, "b"), Some(1));
    assert_eq!(lookup(&values, "c"), None);
    assert_eq!(lookup(&values, ""), None);
    assert_eq!(lookup(&vec![], "a"), None);
}

#[test]
fn same_value_can_be_written_more_than_once() {
    let values = vec![text("x", "<")];
    assert_eq!(rendered(vec![escaped("x"), quoted("x"), escaped("x")], values), "&lt;\"<\"&lt;");
}

#[test]
fn buffer_takes_every_write() {
    let mut sink = Buffer::new();
    assert_eq!(sink.bytes, b"");
    assert_eq!(sink.write_all(b"ab"), Ok(()));
    assert_eq!(sink.write_all(b""), Ok(()));
    assert_eq!(sink.write_all(b"c"), Ok(()));
    assert_eq!(sink.bytes, b"abc");
}

#[test]
fn bounded_refuses_what_does_not_fit() {
    let mut sink = Bounded::new(3);
    assert_eq!(sink.limit, 3);
    assert_eq!(sink.write_all(b"ab"), Ok(()));
    assert_eq!(sink.write_all(b"cd"), Err(SinkError::Full));
    assert_eq!(sink.bytes, b"ab");
    assert_eq!(sink.write_all(b""), Ok(()));
    assert_eq!(sink.put(b"c"), Ok(()));
    assert_eq!(sink.bytes, b"abc");
    assert_eq!(sink.put(b"d"), Err(SinkError::Full));
    assert_eq!(sink.put(b""), Ok(()));
    assert_eq!(sink.bytes, b"abc");
}

#[test]
fn bounded_with_no_room() {
    let mut sink = Bounded::new(0);
    assert_eq!(sink.write_all(b""), Ok(()));
    assert_eq!(sink.write_all(b"a"), Err(SinkError::Full));
    assert_eq!(sink.bytes, b"");
}

#[test]
fn bounded_over_its_limit_takes_nothing() {
    let mut sink = Bounded { bytes: b"abcd".to_vec(), limit: 2 };
    assert_eq!(sink.write_all(b""), Err(SinkError::Full));
    assert_eq!(sink.write_all(b"e"), Err(SinkError::Full));
    assert_eq!(sink.bytes, b"abcd");
}

#[test]
fn execute_appends_to_what_the_sink_holds() {
    let mut sink = Buffer { bytes: b"# ".to_vec() };
    let r = execute(&vec![lit("a"), escaped("x")], &mut sink, &vec![text("x", "<")]);
    assert_eq!(r, Ok(()));
    assert_eq!(sink.bytes, b"# a&lt;");
}

#[test]
fn execute_stops_at_the_first_failed_write() {
    let list = vec![lit("ab"), lit("cdef"), lit("g")];
    let mut sink = Bounded::new(5);
    assert_eq!(execute(&list, &mut sink, &vec![]), Err(SinkError::Full));
    assert_eq!(sink.bytes, b"ab");
}

#[test]
fn execute_succeeds_when_everything_fits() {
    let list = vec![lit("ab"), escaped("x"), lit("g")];
    let mut sink = Bounded::new(7);
    assert_eq!(execute(&list, &mut sink, &vec![text("x", "<")]), Ok(()));
    assert_eq!(sink.bytes, b"ab&lt;g");
    let mut tight = Bounded::new(6);
    assert_eq!(execute(&list, &mut tight, &vec![text("x", "<")]), Err(SinkError::Full));
    assert_eq!(tight.bytes, b"ab&lt;");
}

#[test]
fn execute_keeps_what_a_failed_quote_wrote() {
    let mut sink = Bounded::new(3);
    assert_eq!(execute(&vec![quoted("x")], &mut sink, &vec![text("x", "abc")]), Err(SinkError::Full));
    assert_eq!(sink.bytes, b"\"");
    let mut wider = Bounded::new(4);
    assert_eq!(execute(&vec![quoted("x")], &mut wider, &vec![text("x", "abc")]), Err(SinkError::Full));
    assert_eq!(wider.bytes, b"\"abc");
    let mut enough = Bounded::new(5);
    assert_eq!(execute(&vec![quoted("x")], &mut enough, &vec![text("x", "abc")]), Ok(()));
    assert_eq!(enough.bytes, b"\"abc\"");
}

#[test]
fn failure_of_a_child_ends_the_parent() {
    let values = vec![fragment("c", vec![lit("12"), lit("345"), lit("6")], vec![])];
    let list = vec![lit("a"), child("c"), lit("z")];
    let mut sink = Bounded::new(4);
    assert_eq!(execute(&list, &mut sink, &values), Err(SinkError::Full));
    assert_eq!(sink.bytes, b"a12");
    let mut wide = Bounded::new(8);
    assert_eq!(execute(&list, &mut wide, &values), Ok(()));
    assert_eq!(wide.bytes, b"a123456z");
}

#[test]
fn execute_one_runs_a_single_instruction() {
    let values = vec![text("t", "a&b"), bytes("b", b"\x01\x02")];
    let mut sink = Buffer::new();
    assert_eq!(execute_one(&lit("x"), &mut sink, &values), Ok(()));
    assert_eq!(execute_one(&escaped("t"), &mut sink, &values), Ok(()));
    assert_eq!(execute_one(&quoted("t"), &mut sink, &values), Ok(()));
    assert_eq!(execute_one(&raw("b"), &mut sink, &values), Ok(()));
    assert_eq!(execute_one(&child("none"), &mut sink, &values), Ok(()));
    assert_eq!(sink.bytes, b"xa&amp;b\"a&b\"\x01\x02");
    let mut small = Bounded::new(2);
    assert_eq!(execute_one(&escaped("t"), &mut small, &values), Err(SinkError::Full));
    assert_eq!(small.bytes, b"");
}

#[test]
fn every_run_starts_afresh() {
    let list = vec![lit("<"), escaped("x"), lit(">")];
    assert_eq!(rendered(list.clone(), vec![text("x", "1")]), "<1>");
    assert_eq!(rendered(list.clone(), vec![text("x", "2")]), "<2>");
    assert_eq!(rendered(list, vec![text("x", "1")]), "<1>");
}

#[test]
fn escape_as_a_function() {
    assert_eq!(qtpl::escape("<world>"), "&lt;world&gt;");
    assert_eq!(qtpl::escape("world"), "world");
    assert_eq!(qtpl::escape(""), "");
    assert_eq!(qtpl::escape("&<>\"'/"), "&amp;&lt;&gt;&quot;&#x27;&#x2f;");
}

#[test]
fn escaped_text_holds_no_markup_character() {
    let mut all = String::new();
    let mut n = 0u32;
    while n < 0x300 {
        if let Some(c) = char::from_u32(n) {
            all.push(c);
        }
        n += 1;
    }
    let out = qtpl::escape(&all);
    assert!(!out.contains(|c| c == '<' || c == '>' || c == '"' || c == '\'' || c == '/'));
    assert_eq!(out.chars().filter(|c| *c == '&').count(), 6);
}

#[test]
fn lists_put_together_write_one_after_the_other() {
    let a = vec![lit("a"), escaped("x")];
    let b = vec![quoted("x"), lit("b")];
    let values = vec![text("x", "<")];
    let mut both = a.clone();
    both.extend(b.clone());
    let mut expected = render(&a, &values);
    expected.extend(render(&b, &values));
    assert_eq!(render(&both, &values), expected);
    assert_eq!(expected, b"a&lt;\"<\"b");
}
