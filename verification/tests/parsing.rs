use proc_macro2::{Delimiter, TokenStream};
use qtpl::braced::{lookup_modifier, ExprShape};
use qtpl::error::ParseError;
use qtpl::instruction::{compile, compile_with, Instruction};
use qtpl::item::{Braced, Directive, Item, ItemElement, Name};
use qtpl::parse::{block_shapes, parse_items};
use qtpl::span::SpanPos;
use qtpl::template::{Piece, Template};
use qtpl::token::{Token, TokenKind, TokenTree};

fn flat(tt: &proc_macro2::TokenTree, base: usize) -> Token {
    let range = tt.span().byte_range();
    let kind = match tt {
        proc_macro2::TokenTree::Ident(_) => TokenKind::Ident,
        proc_macro2::TokenTree::Punct(_) => TokenKind::Punct,
        proc_macro2::TokenTree::Literal(_) => TokenKind::Literal,
        proc_macro2::TokenTree::Group(g) => {
            if g.delimiter() == Delimiter::Brace {
                TokenKind::Braced
            } else {
                TokenKind::Group
            }
        }
    };
    Token::new(kind, &tt.to_string(), range.start - base, range.end - base)
}

// Tokens of `src`, with offsets counted from the start of `src`.
fn lex(src: &str) -> Vec<TokenTree> {
    let padded = format!("#{}", src);
    let stream: TokenStream = padded.parse().unwrap();
    let mut trees = stream.into_iter();
    let mark = trees.next().unwrap();
    let base = mark.span().byte_range().end;
    trees
        .map(|tt| {
            let body = match &tt {
                proc_macro2::TokenTree::Group(g) if g.delimiter() == Delimiter::Brace => {
                    g.stream().into_iter().map(|t| flat(&t, base)).collect()
                }
                _ => Vec::new(),
            };
            TokenTree { token: flat(&tt, base), body }
        })
        .collect()
}

fn span(start: usize, end: usize) -> SpanPos {
    SpanPos { start, end }
}

fn ident(text: &str, start: usize) -> Token {
    Token::new(TokenKind::Ident, text, start, start + text.len())
}

fn punct(text: &str, start: usize) -> Token {
    Token::new(TokenKind::Punct, text, start, start + text.len())
}

fn literal(text: &str) -> Piece {
    Piece::Literal(text.to_string())
}

fn directive(directive: Directive, expr: &str) -> Piece {
    Piece::Directive(Braced { directive, expr: expr.to_string() })
}

fn error(start: usize, end: usize, message: &str) -> ParseError {
    ParseError { span: span(start, end), message: message.to_string() }
}

fn template(src: &str) -> Vec<Piece> {
    let (t, errors) = Template::parse(&lex(src));
    assert_eq!(errors, vec![]);
    t.items
}

#[test]
fn lexer_offsets_start_at_zero() {
    let tokens = lex("<a> b");
    assert_eq!(tokens.len(), 4);
    assert_eq!(tokens[0].token, punct("<", 0));
    assert_eq!(tokens[1].token, ident("a", 1));
    assert_eq!(tokens[2].token, punct(">", 2));
    assert_eq!(tokens[3].token, ident("b", 4));
}

#[test]
fn token_new_holds_what_it_is_given() {
    let t = Token::new(TokenKind::Literal, "\"x\"", 4, 7);
    assert_eq!(t.kind, TokenKind::Literal);
    assert_eq!(t.text, "\"x\"");
    assert_eq!(t.span, span(4, 7));
}

#[test]
fn token_is_punct_needs_kind_and_text() {
    assert!(punct("<", 0).is_punct('<'));
    assert!(!punct("<", 0).is_punct('>'));
    assert!(!punct("<=", 0).is_punct('<'));
    assert!(!punct("", 0).is_punct('<'));
    assert!(!Token::new(TokenKind::Literal, "<", 0, 1).is_punct('<'));
    assert!(!ident("a", 0).is_punct('a'));
}

#[test]
fn token_tree_constructors() {
    let leaf = TokenTree::leaf(ident("a", 3));
    assert_eq!(leaf.token, ident("a", 3));
    assert_eq!(leaf.body, vec![]);
    let group = TokenTree::braced("{ x }", 0, 5, vec![ident("x", 2)]);
    assert_eq!(group.token, Token::new(TokenKind::Braced, "{ x }", 0, 5));
    assert_eq!(group.body, vec![ident("x", 2)]);
}

#[test]
fn name_takes_adjacent_tokens_that_start_with_a_letter() {
    let tokens = lex("!doctype html>");
    let (name, next) = Name::parse(&tokens, 0);
    assert_eq!(name, Name { value: "!doctype".to_string(), span_pos: span(0, 8) });
    assert_eq!(next, 2);
}

#[test]
fn name_stops_at_a_gap() {
    let tokens = lex("a b");
    let (name, next) = Name::parse(&tokens, 0);
    assert_eq!(name, Name { value: "a".to_string(), span_pos: span(0, 1) });
    assert_eq!(next, 1);
}

#[test]
fn name_stops_at_a_token_that_starts_with_no_letter() {
    let tokens = lex("a>b");
    let (name, next) = Name::parse(&tokens, 0);
    assert_eq!(name.value, "a");
    assert_eq!(next, 1);
    let digits = vec![TokenTree::leaf(ident("x", 0)), TokenTree::leaf(Token::new(TokenKind::Literal, "1", 1, 2))];
    let (name, next) = Name::parse(&digits, 0);
    assert_eq!(name.value, "x");
    assert_eq!(next, 1);
    let under = vec![TokenTree::leaf(ident("x", 0)), TokenTree::leaf(ident("_y", 1))];
    assert_eq!(Name::parse(&under, 0).1, 1);
}

#[test]
fn name_takes_a_slash() {
    let tokens = lex("br/>");
    let (name, next) = Name::parse(&tokens, 0);
    assert_eq!(name, Name { value: "br/".to_string(), span_pos: span(0, 3) });
    assert_eq!(next, 2);
}

#[test]
fn name_takes_letters_beyond_ascii() {
    let tokens = vec![
        TokenTree::leaf(ident("a", 0)),
        TokenTree::leaf(ident("\u{e9}t\u{e9}", 1)),
        TokenTree::leaf(ident("\u{4e2d}", 6)),
    ];
    let (name, next) = Name::parse(&tokens, 0);
    assert_eq!(name.value, "a\u{e9}t\u{e9}\u{4e2d}");
    assert_eq!(next, 3);
}

#[test]
fn name_takes_any_first_token() {
    let tokens = lex(">a b");
    let (name, next) = Name::parse(&tokens, 0);
    assert_eq!(name, Name { value: ">a".to_string(), span_pos: span(0, 2) });
    assert_eq!(next, 2);
}

#[test]
fn name_skips_an_empty_token() {
    let tokens = vec![
        TokenTree::leaf(ident("a", 0)),
        TokenTree::leaf(Token::new(TokenKind::Ident, "", 1, 1)),
        TokenTree::leaf(ident("b", 1)),
    ];
    let (name, next) = Name::parse(&tokens, 0);
    assert_eq!(name.value, "a");
    assert_eq!(next, 1);
}

#[test]
fn name_from_the_middle_of_the_stream() {
    let tokens = lex("x <my-tag");
    let (name, next) = Name::parse(&tokens, 2);
    assert_eq!(name, Name { value: "my".to_string(), span_pos: span(3, 5) });
    assert_eq!(next, 3);
}

#[test]
fn modifiers_name_directives() {
    assert_eq!(lookup_modifier("q"), Some(Directive::Quote));
    assert_eq!(lookup_modifier("b"), Some(Directive::Bytes));
    assert_eq!(lookup_modifier("t"), Some(Directive::ChildCall));
    assert_eq!(lookup_modifier("c"), Some(Directive::ChildCapability));
    for other in ["", "x", "Q", "qq", "raw", "default"] {
        assert_eq!(lookup_modifier(other), None, "{:?}", other);
    }
}

#[test]
fn build_without_modifier_is_default() {
    for shape in [ExprShape::Call, ExprShape::Path, ExprShape::Other] {
        let (element, errors) = Braced::build(None, "x".to_string(), span(1, 2), shape);
        assert_eq!(
            element,
            ItemElement::Braced(Braced { directive: Directive::Default, expr: "x".to_string() })
        );
        assert_eq!(errors, vec![]);
    }
}

#[test]
fn build_with_known_modifiers() {
    let cases = [
        ("q", ExprShape::Other, Directive::Quote),
        ("q", ExprShape::Call, Directive::Quote),
        ("b", ExprShape::Path, Directive::Bytes),
        ("b", ExprShape::Other, Directive::Bytes),
        ("t", ExprShape::Call, Directive::ChildCall),
        ("c", ExprShape::Path, Directive::ChildCapability),
    ];
    for (m, shape, d) in cases {
        let modifier = ident(m, 1);
        let (element, errors) = Braced::build(Some(&modifier), "e".to_string(), span(3, 4), shape);
        assert_eq!(element, ItemElement::Braced(Braced { directive: d, expr: "e".to_string() }));
        assert_eq!(errors, vec![]);
    }
}

#[test]
fn build_reports_an_unknown_modifier_and_falls_back() {
    let modifier = ident("x", 2);
    let (element, errors) =
        Braced::build(Some(&modifier), "name".to_string(), span(4, 8), ExprShape::Path);
    assert_eq!(
        element,
        ItemElement::Braced(Braced { directive: Directive::Default, expr: "name".to_string() })
    );
    assert_eq!(errors, vec![error(2, 3, "invalid formatting directive: x")]);
}

#[test]
fn build_reports_a_body_that_is_no_expression() {
    let (element, errors) = Braced::build(None, "+".to_string(), span(1, 2), ExprShape::Invalid);
    assert_eq!(element, ItemElement::Literal(String::new()));
    assert_eq!(errors, vec![error(1, 2, "expected expression")]);
    let modifier = ident("b", 2);
    let (element, errors) =
        Braced::build(Some(&modifier), "+".to_string(), span(4, 5), ExprShape::Invalid);
    assert_eq!(element, ItemElement::Literal(String::new()));
    assert_eq!(errors, vec![error(4, 5, "expected expression")]);
}

#[test]
fn build_reports_a_child_call_that_is_no_call() {
    let modifier = ident("t", 2);
    for shape in [ExprShape::Path, ExprShape::Other] {
        let (element, errors) = Braced::build(Some(&modifier), "x".to_string(), span(4, 5), shape);
        assert_eq!(element, ItemElement::Literal(String::new()));
        assert_eq!(errors, vec![error(4, 5, "expected call expression here")]);
    }
}

#[test]
fn build_reports_a_child_capability_that_is_no_path() {
    let modifier = ident("c", 2);
    for shape in [ExprShape::Call, ExprShape::Other] {
        let (element, errors) = Braced::build(Some(&modifier), "x".to_string(), span(4, 5), shape);
        assert_eq!(element, ItemElement::Literal(String::new()));
        assert_eq!(errors, vec![error(4, 5, "expected path expression here")]);
    }
}

#[test]
fn build_reports_both_faults_of_one_block() {
    let modifier = ident("zz", 2);
    let (element, errors) =
        Braced::build(Some(&modifier), ")".to_string(), span(5, 6), ExprShape::Invalid);
    assert_eq!(element, ItemElement::Literal(String::new()));
    assert_eq!(
        errors,
        vec![error(2, 4, "invalid formatting directive: zz"), error(5, 6, "expected expression")]
    );
}

fn block(src: &str) -> (ItemElement, Vec<ParseError>) {
    let tokens = lex(src);
    assert_eq!(tokens.len(), 1);
    let shape = Braced::shape(&tokens[0].body);
    Braced::parse(&tokens[0].body, tokens[0].token.span, shape)
}

fn items(src: &str) -> (Vec<Item>, Vec<ParseError>) {
    let tokens = lex(src);
    parse_items(&tokens, &block_shapes(&tokens))
}

fn braced(directive: Directive, expr: &str) -> ItemElement {
    ItemElement::Braced(Braced { directive, expr: expr.to_string() })
}

#[test]
fn block_without_modifier() {
    assert_eq!(block("{name}"), (braced(Directive::Default, "name"), vec![]));
    assert_eq!(block("{ name }"), (braced(Directive::Default, "name"), vec![]));
    assert_eq!(block("{&name}"), (braced(Directive::Default, "&name"), vec![]));
    assert_eq!(block("{\"   \"}"), (braced(Directive::Default, "\"   \""), vec![]));
    assert_eq!(block("{a + b}"), (braced(Directive::Default, "a + b"), vec![]));
    assert_eq!(block("{a+b}"), (braced(Directive::Default, "a+b"), vec![]));
}

#[test]
fn block_keeps_joined_punctuation_together() {
    assert_eq!(block("{a::b::c}"), (braced(Directive::Default, "a::b::c"), vec![]));
    assert_eq!(block("{!c a::b}"), (braced(Directive::ChildCapability, "a::b"), vec![]));
    assert_eq!(block("{x.len()}"), (braced(Directive::Default, "x.len()"), vec![]));
    assert_eq!(block("{a&&b}"), (braced(Directive::Default, "a&&b"), vec![]));
}

#[test]
fn block_with_modifiers() {
    assert_eq!(block("{!q class}"), (braced(Directive::Quote, "class"), vec![]));
    assert_eq!(block("{!b name}"), (braced(Directive::Bytes, "name"), vec![]));
    assert_eq!(block("{!c page}"), (braced(Directive::ChildCapability, "page"), vec![]));
    assert_eq!(block("{! q class}"), (braced(Directive::Quote, "class"), vec![]));
    let (element, errors) = block("{!t page(&b, &f)}");
    assert_eq!(errors, vec![]);
    match element {
        ItemElement::Braced(b) => {
            assert_eq!(b.directive, Directive::ChildCall);
            assert!(b.expr.starts_with("page("), "{}", b.expr);
        }
        other => panic!("{:?}", other),
    }
}

#[test]
fn block_with_unknown_modifier() {
    assert_eq!(
        block("{!x name}"),
        (
            braced(Directive::Default, "name"),
            vec![error(2, 3, "invalid formatting directive: x")]
        )
    );
    assert_eq!(
        block("{!raw a.b}"),
        (
            braced(Directive::Default, "a.b"),
            vec![error(2, 5, "invalid formatting directive: raw")]
        )
    );
}

#[test]
fn block_with_bang_and_no_modifier() {
    assert_eq!(
        block("{!}"),
        (ItemElement::Literal(String::new()), vec![error(1, 2, "expected identifier")])
    );
    assert_eq!(
        block("{!5 x}"),
        (ItemElement::Literal(String::new()), vec![error(2, 3, "expected identifier")])
    );
    assert_eq!(
        block("{!(a)}"),
        (ItemElement::Literal(String::new()), vec![error(2, 5, "expected identifier")])
    );
}

#[test]
fn block_with_malformed_body() {
    assert_eq!(
        block("{}"),
        (ItemElement::Literal(String::new()), vec![error(0, 2, "expected expression")])
    );
    assert_eq!(
        block("{a b}"),
        (ItemElement::Literal(String::new()), vec![error(1, 4, "expected expression")])
    );
    assert_eq!(
        block("{!b}"),
        (ItemElement::Literal(String::new()), vec![error(0, 4, "expected expression")])
    );
    assert_eq!(
        block("{!b +}"),
        (ItemElement::Literal(String::new()), vec![error(4, 5, "expected expression")])
    );
    assert_eq!(
        block("{!t}"),
        (ItemElement::Literal(String::new()), vec![error(0, 4, "expected expression")])
    );
}

#[test]
fn block_with_child_of_the_wrong_shape() {
    assert_eq!(
        block("{!t page}"),
        (ItemElement::Literal(String::new()), vec![error(4, 8, "expected call expression here")])
    );
    assert_eq!(
        block("{!t a + b}"),
        (ItemElement::Literal(String::new()), vec![error(4, 9, "expected call expression here")])
    );
    assert_eq!(
        block("{!c page()}"),
        (ItemElement::Literal(String::new()), vec![error(4, 10, "expected path expression here")])
    );
    assert_eq!(
        block("{!c a.b}"),
        (ItemElement::Literal(String::new()), vec![error(4, 7, "expected path expression here")])
    );
}

#[test]
fn block_with_method_call_is_no_child_call() {
    assert_eq!(
        block("{!t a.f()}"),
        (ItemElement::Literal(String::new()), vec![error(4, 9, "expected call expression here")])
    );
}

fn item(src: &str, pos: usize) -> (Item, usize, Vec<ParseError>) {
    let tokens = lex(src);
    let shapes = block_shapes(&tokens);
    Item::parse(&tokens, pos, shapes[pos])
}

fn name(value: &str, start: usize, end: usize) -> Name {
    Name { value: value.to_string(), span_pos: span(start, end) }
}

#[test]
fn item_new_holds_what_it_is_given() {
    let i = Item::new(span(1, 2), ItemElement::EndTag);
    assert_eq!(i, Item { element: ItemElement::EndTag, span_pos: span(1, 2) });
}

#[test]
fn item_open_tag() {
    assert_eq!(
        item("<div class", 0),
        (Item::new(span(0, 4), ItemElement::StartOpenTag(name("div", 1, 4))), 2, vec![])
    );
    assert_eq!(
        item("< div", 0),
        (Item::new(span(0, 5), ItemElement::StartOpenTag(name("div", 2, 5))), 2, vec![])
    );
    assert_eq!(
        item("<!doctype html", 0),
        (Item::new(span(0, 9), ItemElement::StartOpenTag(name("!doctype", 1, 9))), 3, vec![])
    );
}

#[test]
fn item_close_tag() {
    assert_eq!(
        item("</div>", 0),
        (Item::new(span(0, 5), ItemElement::StartCloseTag(name("div", 2, 5))), 3, vec![])
    );
    assert_eq!(
        item("x </a", 1),
        (Item::new(span(2, 5), ItemElement::StartCloseTag(name("a", 4, 5))), 4, vec![])
    );
}

#[test]
fn item_tag_end() {
    assert_eq!(item("<a>", 2), (Item::new(span(2, 3), ItemElement::EndTag), 3, vec![]));
    assert_eq!(item(">", 0), (Item::new(span(0, 1), ItemElement::EndTag), 1, vec![]));
}

#[test]
fn item_literal() {
    assert_eq!(
        item("Hello, world", 0),
        (Item::new(span(0, 5), ItemElement::Literal("Hello".to_string())), 1, vec![])
    );
    assert_eq!(
        item("Hello, world", 1),
        (Item::new(span(5, 6), ItemElement::Literal(",".to_string())), 2, vec![])
    );
    assert_eq!(
        item("class=\"icon\"", 2),
        (Item::new(span(6, 12), ItemElement::Literal("\"icon\"".to_string())), 3, vec![])
    );
    assert_eq!(
        item("/", 0),
        (Item::new(span(0, 1), ItemElement::Literal("/".to_string())), 1, vec![])
    );
}

#[test]
fn item_group_in_parentheses_is_literal() {
    let (i, next, errors) = item("(a)", 0);
    assert_eq!(next, 1);
    assert_eq!(errors, vec![]);
    assert_eq!(i.span_pos, span(0, 3));
    assert!(matches!(i.element, ItemElement::Literal(_)));
}

#[test]
fn item_directive() {
    assert_eq!(
        item("a {!q x} b", 1),
        (Item::new(span(2, 8), braced(Directive::Quote, "x")), 2, vec![])
    );
    assert_eq!(
        item("{!z x}", 0),
        (
            Item::new(span(0, 6), braced(Directive::Default, "x")),
            1,
            vec![error(2, 3, "invalid formatting directive: z")]
        )
    );
}

#[test]
fn item_tag_without_name() {
    assert_eq!(
        item("a <", 1),
        (
            Item::new(span(2, 3), ItemElement::Literal(String::new())),
            2,
            vec![error(2, 3, "expected tag name")]
        )
    );
    assert_eq!(
        item("a </", 1),
        (
            Item::new(span(2, 4), ItemElement::Literal(String::new())),
            3,
            vec![error(2, 4, "expected tag name")]
        )
    );
}

#[test]
fn items_of_a_stream() {
    let (items, errors) = items("<a>Hi {x}</a>");
    assert_eq!(errors, vec![]);
    assert_eq!(
        items,
        vec![
            Item::new(span(0, 2), ItemElement::StartOpenTag(name("a", 1, 2))),
            Item::new(span(2, 3), ItemElement::EndTag),
            Item::new(span(3, 5), ItemElement::Literal("Hi".to_string())),
            Item::new(span(6, 9), braced(Directive::Default, "x")),
            Item::new(span(9, 12), ItemElement::StartCloseTag(name("a", 11, 12))),
            Item::new(span(12, 13), ItemElement::EndTag),
        ]
    );
}

#[test]
fn items_of_an_empty_stream() {
    assert_eq!(parse_items(&vec![], &vec![]), (vec![], vec![]));
}

#[test]
fn all_faults_are_found_in_one_pass() {
    let (items, errors) = items("{!x a} b {} {!t c} <");
    assert_eq!(items.len(), 5);
    assert_eq!(
        errors,
        vec![
            error(2, 3, "invalid formatting directive: x"),
            error(9, 11, "expected expression"),
            error(16, 17, "expected call expression here"),
            error(19, 20, "expected tag name"),
        ]
    );
}

#[test]
fn normalize_merges_text_and_keeps_gaps() {
    assert_eq!(template("<a>Hello, world!</a>"), vec![literal("<a>Hello, world!</a>")]);
    assert_eq!(template("a b  c\n\nd"), vec![literal("a b c d")]);
    assert_eq!(template("a,b"), vec![literal("a,b")]);
}

#[test]
fn normalize_drops_whitespace_at_the_ends() {
    assert_eq!(template("  a b  "), vec![literal("a b")]);
    assert_eq!(template("\n\t<a>x</a>\n"), vec![literal("<a>x</a>")]);
    assert_eq!(template(""), vec![]);
    assert_eq!(template("   "), vec![]);
}

#[test]
fn normalize_splits_at_directives() {
    assert_eq!(
        template("<a>Hello, {name} - welcome!</a>"),
        vec![
            literal("<a>Hello, "),
            directive(Directive::Default, "name"),
            literal(" - welcome!</a>")
        ]
    );
    assert_eq!(
        template("<a>Hello:{name}!</a>"),
        vec![literal("<a>Hello:"), directive(Directive::Default, "name"), literal("!</a>")]
    );
    assert_eq!(template("{a}"), vec![directive(Directive::Default, "a")]);
    assert_eq!(
        template("{a}{!q b}"),
        vec![directive(Directive::Default, "a"), directive(Directive::Quote, "b")]
    );
    assert_eq!(
        template("{a} {!q b}"),
        vec![directive(Directive::Default, "a"), literal(" "), directive(Directive::Quote, "b")]
    );
}

#[test]
fn normalize_keeps_a_gap_next_to_a_directive_at_the_ends() {
    assert_eq!(
        template("Copyright {company}"),
        vec![literal("Copyright "), directive(Directive::Default, "company")]
    );
    assert_eq!(
        template("{company} inc"),
        vec![directive(Directive::Default, "company"), literal(" inc")]
    );
    assert_eq!(template("  {x}  "), vec![directive(Directive::Default, "x")]);
}

#[test]
fn normalize_strips_around_insensitive_tags() {
    assert_eq!(
        template("<a>Hello, <div> world </div> !</a>"),
        vec![literal("<a>Hello,<div>world</div>!</a>")]
    );
    assert_eq!(
        template("<div> <a>Go <i class=\"icon\">   </i></a> </div>"),
        vec![literal("<div><a>Go <i class=\"icon\"> </i></a></div>")]
    );
    assert_eq!(template("<ul> <li> a </li> <li> b </li> </ul>"), vec![literal("<ul><li>a</li><li>b</li></ul>")]);
}

#[test]
fn normalize_keeps_one_space_around_sensitive_tags() {
    assert_eq!(
        template("<a>Hello, <i>  world </i> !</a>"),
        vec![literal("<a>Hello, <i> world </i> !</a>")]
    );
    assert_eq!(template("x <b> y </b> z"), vec![literal("x <b> y </b> z")]);
    assert_eq!(template("x<b>y</b>z"), vec![literal("x<b>y</b>z")]);
}

#[test]
fn normalize_strips_after_an_insensitive_tag_before_a_directive() {
    assert_eq!(
        template("<p> {x} </p>"),
        vec![literal("<p>"), directive(Directive::Default, "x"), literal("</p>")]
    );
    assert_eq!(
        template("<i> {x} </i>"),
        vec![literal("<i> "), directive(Directive::Default, "x"), literal(" </i>")]
    );
}

#[test]
fn normalize_keeps_attributes_of_an_insensitive_tag() {
    assert_eq!(
        template("<div class=\"a\" id=\"b\"> x"),
        vec![literal("<div class=\"a\" id=\"b\">x")]
    );
}

#[test]
fn normalize_collapses_whitespace_inside_a_token() {
    let tokens = vec![
        TokenTree::leaf(Token::new(TokenKind::Literal, "\"a  \n b\"", 0, 8)),
        TokenTree::leaf(Token::new(TokenKind::Ident, "c", 10, 11)),
    ];
    let (t, errors) = Template::parse(&tokens);
    assert_eq!(errors, vec![]);
    assert_eq!(t.items, vec![literal("\"a b\" c")]);
}

#[test]
fn normalize_trims_whitespace_that_tokens_bring() {
    let tokens = vec![
        TokenTree::leaf(Token::new(TokenKind::Literal, " \n a", 0, 4)),
        TokenTree::leaf(Token::new(TokenKind::Literal, "b \t ", 4, 8)),
    ];
    let (t, errors) = Template::parse(&tokens);
    assert_eq!(errors, vec![]);
    assert_eq!(t.items, vec![literal("ab")]);
    let blank = vec![TokenTree::leaf(Token::new(TokenKind::Literal, " \n ", 0, 3))];
    assert_eq!(Template::parse(&blank).0.items, vec![]);
}

#[test]
fn normalize_drops_a_blank_literal_at_an_end_only() {
    let tokens = vec![
        TokenTree::leaf(Token::new(TokenKind::Literal, "  ", 0, 2)),
        TokenTree::braced("{x}", 2, 5, vec![ident("x", 3)]),
        TokenTree::leaf(Token::new(TokenKind::Literal, "  ", 5, 7)),
        TokenTree::braced("{y}", 7, 10, vec![ident("y", 8)]),
        TokenTree::leaf(Token::new(TokenKind::Literal, "  ", 10, 12)),
    ];
    let (t, errors) = Template::parse(&tokens);
    assert_eq!(errors, vec![]);
    assert_eq!(
        t.items,
        vec![
            directive(Directive::Default, "x"),
            literal(" "),
            directive(Directive::Default, "y")
        ]
    );
}

#[test]
fn normalize_leaves_directives_untouched() {
    assert_eq!(
        template("<a>{\"   \"}</a>"),
        vec![literal("<a>"), directive(Directive::Default, "\"   \""), literal("</a>")]
    );
}

#[test]
fn normalize_works_on_items_directly() {
    let items = vec![
        Item::new(span(0, 1), ItemElement::Literal("a".to_string())),
        Item::new(span(5, 9), ItemElement::StartOpenTag(name("td", 6, 9))),
        Item::new(span(9, 10), ItemElement::EndTag),
        Item::new(span(20, 21), ItemElement::Literal("b".to_string())),
    ];
    assert_eq!(Template::normalize(&items).items, vec![literal("a<td>b")]);
    assert_eq!(Template::normalize(&vec![]).items, vec![]);
}

#[test]
fn normalized_templates_are_well_formed() {
    let sources = [
        "<div> <a>Go <i class=\"icon\">   </i></a> {x} </div>",
        " {a} {b}  {c} ",
        "a {b} c",
        "<p> </p>",
        "{a}{b}",
        "",
    ];
    for src in sources {
        let items = template(src);
        for (i, piece) in items.iter().enumerate() {
            if let Piece::Literal(text) = piece {
                assert!(!text.is_empty(), "{:?}", src);
                assert!(!text.contains("  "), "{:?}", src);
                assert!(text.chars().all(|c| !c.is_whitespace() || c == ' '), "{:?}", src);
                if i > 0 {
                    assert!(matches!(items[i - 1], Piece::Directive(_)), "{:?}", src);
                }
            }
        }
        if let Some(Piece::Literal(text)) = items.first() {
            assert!(!text.starts_with(' '), "{:?}", src);
        }
        if let Some(Piece::Literal(text)) = items.last() {
            assert!(!text.ends_with(' '), "{:?}", src);
        }
    }
}

#[test]
fn layout_of_the_source_does_not_matter() {
    let one = "<div> <a>Go <i class=\"icon\"> </i></a> {!q x} </div>";
    let two = "\n\n   <div>\n\t<a>Go     <i   class=\"icon\">\n\n</i></a>\n\n\n{!q   x}\n</div>\n";
    let a = Template::parse(&lex(one)).0;
    let b = Template::parse(&lex(two)).0;
    assert_eq!(a, b);
    assert_eq!(a.to_instructions(), b.to_instructions());
    assert_eq!(compile(&lex(one)), compile(&lex(two)));
}

#[test]
fn piece_to_instruction() {
    assert_eq!(literal("a\u{e9}").to_instruction(), Instruction::WriteLiteral(vec![0x61, 0xc3, 0xa9]));
    assert_eq!(literal("").to_instruction(), Instruction::WriteLiteral(vec![]));
    assert_eq!(
        directive(Directive::Default, "x").to_instruction(),
        Instruction::WriteEscaped("x".to_string())
    );
    assert_eq!(
        directive(Directive::Quote, "x").to_instruction(),
        Instruction::WriteQuoted("x".to_string())
    );
    assert_eq!(
        directive(Directive::Bytes, "x").to_instruction(),
        Instruction::WriteRawBytes("x".to_string())
    );
    assert_eq!(
        directive(Directive::ChildCall, "f()").to_instruction(),
        Instruction::InvokeChild("f()".to_string())
    );
    assert_eq!(
        directive(Directive::ChildCapability, "f").to_instruction(),
        Instruction::InvokeChild("f".to_string())
    );
}

#[test]
fn template_to_instructions_keeps_the_order() {
    let t = Template {
        items: vec![literal("a"), directive(Directive::Quote, "x"), literal("b")],
    };
    assert_eq!(
        t.to_instructions(),
        vec![
            Instruction::WriteLiteral(b"a".to_vec()),
            Instruction::WriteQuoted("x".to_string()),
            Instruction::WriteLiteral(b"b".to_vec()),
        ]
    );
    assert_eq!(Template { items: vec![] }.to_instructions(), vec![]);
}

#[test]
fn compile_gives_the_instruction_list() {
    assert_eq!(
        compile(&lex("<a class={!q class}>Hello, {name}! {!b raw} {!c child}</a>")),
        Ok(vec![
            Instruction::WriteLiteral(b"<a class=".to_vec()),
            Instruction::WriteQuoted("class".to_string()),
            Instruction::WriteLiteral(b">Hello, ".to_vec()),
            Instruction::WriteEscaped("name".to_string()),
            Instruction::WriteLiteral(b"! ".to_vec()),
            Instruction::WriteRawBytes("raw".to_string()),
            Instruction::WriteLiteral(b" ".to_vec()),
            Instruction::InvokeChild("child".to_string()),
            Instruction::WriteLiteral(b"</a>".to_vec()),
        ])
    );
    assert_eq!(compile(&vec![]), Ok(vec![]));
}

#[test]
fn compile_fails_on_any_fault() {
    assert_eq!(
        compile(&lex("a {!x b} c")),
        Err(vec![error(4, 5, "invalid formatting directive: x")])
    );
    assert_eq!(
        compile(&lex("{!c page(&b, &f)}")),
        Err(vec![error(4, 16, "expected path expression here")])
    );
    assert_eq!(compile(&lex("<")), Err(vec![error(0, 1, "expected tag name")]));
    assert_eq!(
        compile(&lex("{} {!}")),
        Err(vec![error(0, 2, "expected expression"), error(4, 5, "expected identifier")])
    );
}

#[test]
fn parse_gives_a_template_beside_the_faults() {
    let (t, errors) = Template::parse(&lex("a {!x b} c {} d"));
    assert_eq!(errors.len(), 2);
    assert_eq!(
        t.items,
        vec![literal("a "), directive(Directive::Default, "b"), literal(" c d")]
    );
}

#[test]
fn name_part_starts_with_a_letter_or_a_slash() {
    assert!(Name::accepts('a', true));
    assert!(Name::accepts('\u{e9}', true));
    assert!(Name::accepts('/', false));
    assert!(!Name::accepts('1', false));
    assert!(!Name::accepts('>', false));
    assert!(!Name::accepts('_', false));
}

#[test]
fn items_keep_the_order_of_the_source() {
    let (items, _) = items("<div class=\"a\"> x {y} </div> <");
    let mut end = 0;
    for item in &items {
        assert!(item.span_pos.start <= item.span_pos.end);
        assert!(end <= item.span_pos.start);
        end = item.span_pos.end;
    }
}

#[test]
fn lexed_templates_are_written_as_gathered() {
    let (t, errors) = Template::parse(&lex("<a>Hello, {name} - welcome!</a> <b> x </b>"));
    assert_eq!(errors, vec![]);
    assert_eq!(
        t.items,
        vec![
            literal("<a>Hello, "),
            directive(Directive::Default, "name"),
            literal(" - welcome!</a> <b> x </b>")
        ]
    );
}

#[test]
fn expression_of_a_block() {
    let text = |src: &str| Braced::expression(&lex(src)[0].body);
    assert_eq!(text("{name}"), "name");
    assert_eq!(text("{ a  +  b }"), "a + b");
    assert_eq!(text("{!q class}"), "class");
    assert_eq!(text("{!q a::b . c}"), "a::b . c");
    assert_eq!(text("{!x}"), "");
    assert_eq!(text("{!}"), "");
    assert_eq!(text("{!5 x}"), "");
    assert_eq!(text("{}"), "");
}

#[test]
fn shape_of_a_block() {
    let shape = |src: &str| Braced::shape(&lex(src)[0].body);
    assert_eq!(shape("{page(a, b)}"), ExprShape::Call);
    assert_eq!(shape("{!t page()}"), ExprShape::Call);
    assert_eq!(shape("{name}"), ExprShape::Path);
    assert_eq!(shape("{!c a::b}"), ExprShape::Path);
    assert_eq!(shape("{a + b}"), ExprShape::Other);
    assert_eq!(shape("{&name}"), ExprShape::Other);
    assert_eq!(shape("{\"x\"}"), ExprShape::Other);
    assert_eq!(shape("{a b}"), ExprShape::Invalid);
    assert_eq!(shape("{}"), ExprShape::Invalid);
    assert_eq!(shape("{+}"), ExprShape::Invalid);
}

#[test]
fn shapes_of_a_stream() {
    assert_eq!(
        block_shapes(&lex("a {b} <c> {d()} {+} {e - f}")),
        vec![
            ExprShape::Other,
            ExprShape::Path,
            ExprShape::Other,
            ExprShape::Other,
            ExprShape::Other,
            ExprShape::Call,
            ExprShape::Invalid,
            ExprShape::Other,
        ]
    );
    assert_eq!(block_shapes(&vec![]), vec![]);
}

#[test]
fn block_with_a_given_shape() {
    let tokens = lex("{!t x}");
    let parse = |shape| Braced::parse(&tokens[0].body, tokens[0].token.span, shape);
    assert_eq!(parse(ExprShape::Call), (braced(Directive::ChildCall, "x"), vec![]));
    assert_eq!(
        parse(ExprShape::Path),
        (ItemElement::Literal(String::new()), vec![error(4, 5, "expected call expression here")])
    );
    assert_eq!(
        parse(ExprShape::Invalid),
        (ItemElement::Literal(String::new()), vec![error(4, 5, "expected expression")])
    );
}

#[test]
fn item_takes_the_shape_only_for_a_block() {
    let tokens = lex("a {!c b}");
    for shape in [ExprShape::Call, ExprShape::Path, ExprShape::Other, ExprShape::Invalid] {
        assert_eq!(
            Item::parse(&tokens, 0, shape),
            (Item::new(span(0, 1), ItemElement::Literal("a".to_string())), 1, vec![])
        );
    }
    assert_eq!(
        Item::parse(&tokens, 1, ExprShape::Path),
        (Item::new(span(2, 8), braced(Directive::ChildCapability, "b")), 2, vec![])
    );
    assert_eq!(
        Item::parse(&tokens, 1, ExprShape::Other),
        (
            Item::new(span(2, 8), ItemElement::Literal(String::new())),
            2,
            vec![error(6, 7, "expected path expression here")]
        )
    );
}

#[test]
fn stream_with_given_shapes() {
    let tokens = lex("<a>{x} {!t y}</a>");
    let good = vec![
        ExprShape::Other,
        ExprShape::Other,
        ExprShape::Other,
        ExprShape::Path,
        ExprShape::Call,
        ExprShape::Other,
        ExprShape::Other,
        ExprShape::Other,
        ExprShape::Other,
    ];
    assert_eq!(good.len(), tokens.len());
    let (t, errors) = Template::parse_with(&tokens, &good);
    assert_eq!(errors, vec![]);
    assert_eq!(
        t.items,
        vec![
            literal("<a>"),
            directive(Directive::Default, "x"),
            literal(" "),
            directive(Directive::ChildCall, "y"),
            literal("</a>")
        ]
    );
    assert_eq!(
        compile_with(&tokens, &good),
        Ok(vec![
            Instruction::WriteLiteral(b"<a>".to_vec()),
            Instruction::WriteEscaped("x".to_string()),
            Instruction::WriteLiteral(b" ".to_vec()),
            Instruction::InvokeChild("y".to_string()),
            Instruction::WriteLiteral(b"</a>".to_vec()),
        ])
    );
    let mut bad = good.clone();
    bad[4] = ExprShape::Path;
    assert_eq!(
        compile_with(&tokens, &bad),
        Err(vec![error(11, 12, "expected call expression here")])
    );
}

#[test]
fn stream_with_too_few_shapes() {
    let tokens = lex("a {x} b");
    let (items, errors) = parse_items(&tokens, &vec![]);
    assert_eq!(items.len(), 3);
    assert_eq!(errors, vec![error(3, 4, "expected expression")]);
    assert_eq!(compile_with(&lex("a b"), &vec![]), Ok(vec![Instruction::WriteLiteral(b"a b".to_vec())]));
}

#[test]
fn tag_without_name_writes_nothing() {
    let (t, errors) = Template::parse(&lex("a <"));
    assert_eq!(errors, vec![error(2, 3, "expected tag name")]);
    assert_eq!(t.items, vec![literal("a")]);
    let (t, errors) = Template::parse(&lex("a </"));
    assert_eq!(errors, vec![error(2, 4, "expected tag name")]);
    assert_eq!(t.items, vec![literal("a")]);
}

#[test]
fn silent_element_is_an_empty_literal() {
    assert_eq!(qtpl::braced::silent(), ItemElement::Literal(String::new()));
}
