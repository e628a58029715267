//! Tests for the reader of the restricted Lua subset.

use wow_coach_core::lua::{parse_saved_variables, LuaValue, ParseError};
use wow_coach_core::text::StrMap;

fn globals(input: &str) -> StrMap<LuaValue> {
    parse_saved_variables(input).expect("the input is in the subset")
}

fn error_of(input: &str) -> ParseError {
    match parse_saved_variables(input) {
        Err(error) => error,
        Ok(_) => panic!("expected a parse error for {input:?}"),
    }
}

#[test]
fn nested_tables_keep_names_and_lists_apart() {
    let parsed = globals(r#"DB = { ["a"] = { 1, 2, [3] = 3 }, ["b"] = true }"#);
    let value = parsed.get("DB").unwrap();
    let table = value.as_table().unwrap();
    let list = table.get("a").unwrap().as_table().unwrap();
    assert_eq!(list.array.len(), 3);
    assert!(list.map.is_empty());
    for (i, v) in list.array.iter().enumerate() {
        assert_eq!(v.as_i64(), Some(i as i64 + 1));
    }
    assert_eq!(table.get("b").unwrap().as_bool(), Some(true));
    assert!(table.get("c").is_none());
}

#[test]
fn several_globals_may_follow_each_other_with_or_without_a_semicolon() {
    let globals = parse_saved_variables("A = 1; B = \"two\"\nC = false").unwrap();
    assert_eq!(globals.len(), 3);
    assert_eq!(globals.get("A").unwrap().as_i64(), Some(1));
    assert_eq!(globals.get("B").unwrap().as_str(), Some("two"));
    assert_eq!(globals.get("C").unwrap().as_bool(), Some(false));
}

#[test]
fn an_empty_file_has_no_globals() {
    assert!(parse_saved_variables("").unwrap().is_empty());
    assert!(parse_saved_variables("  \n-- nothing here\n").unwrap().is_empty());
}

#[test]
fn comments_are_skipped() {
    let input = "-- written by hand\nDB = { --[[ a block\ncomment ]] [\"a\"] = 1, -- trailing\n }";
    let parsed = globals(input);
    let value = parsed.get("DB").unwrap();
    assert_eq!(value.as_table().unwrap().get("a").unwrap().as_i64(), Some(1));
}

#[test]
fn escapes_are_decoded() {
    let parsed = globals(r#"DB = "a\65\n\t\"q\\""#);
    let value = parsed.get("DB").unwrap();
    assert_eq!(value.as_str(), Some("aA\n\t\"q\\"));
    let parsed = globals("DB = \"one\\\ntwo\"");
    let value = parsed.get("DB").unwrap();
    assert_eq!(value.as_str(), Some("one\ntwo"));
}

#[test]
fn escaped_bytes_are_decoded_with_the_rest_of_the_string() {
    let parsed = globals(r#"X = { ["n"] = "\195\164" }"#);
    let value = parsed.get("X").unwrap().as_table().unwrap().get("n").unwrap();
    assert_eq!(value.as_str(), Some("ä"));
    let parsed = globals("DB = \"Zo\\195\\171 \\195\"");
    let value = parsed.get("DB").unwrap();
    assert_eq!(value.as_str(), Some("Zoë \u{FFFD}"));
}

#[test]
fn an_escaped_byte_that_is_not_utf8_reads_as_a_replacement() {
    let parsed = globals(r#"DB = "caf\233""#);
    let value = parsed.get("DB").unwrap();
    assert_eq!(value.as_str(), Some("caf\u{FFFD}"));
}

#[test]
fn multi_byte_text_is_kept_whole() {
    let parsed = globals("DB = \"Zoë 雪\"");
    let value = parsed.get("DB").unwrap();
    assert_eq!(value.as_str(), Some("Zoë 雪"));
}

#[test]
fn a_byte_escape_above_255_is_refused() {
    let error = error_of(r#"DB = "\256""#);
    assert_eq!(error.message, "byte escape \\256 out of range");
}

#[test]
fn an_unknown_escape_is_refused() {
    let error = error_of(r#"DB = "\x41""#);
    assert_eq!(error.message, "unsupported escape \\x");
}

#[test]
fn an_unterminated_string_is_refused() {
    assert_eq!(error_of("DB = \"abc").message, "unterminated string");
    assert_eq!(error_of("DB = \"abc\\").message, "unterminated escape");
}

#[test]
fn an_unterminated_table_is_refused() {
    let error = error_of("DB = { 1,");
    assert_eq!(error.message, "unterminated table");
    assert_eq!(error.offset, 9);
}

#[test]
fn entries_need_a_separator() {
    let error = error_of("DB = { 1 2 }");
    assert_eq!(error.message, "expected ',' or '}' after a table entry");
    assert_eq!(error.offset, 9);
}

#[test]
fn nil_is_outside_the_subset() {
    assert_eq!(error_of("DB = nil").message, "nil is not part of the collector's subset");
}

#[test]
fn an_unexpected_byte_is_named_and_located() {
    let error = error_of("DB = {\n\n @}");
    assert_eq!(
        error.message,
        "unexpected '@': the subset holds only tables, strings, numbers and booleans"
    );
    assert_eq!(error.offset, 9);
    assert_eq!(error.line, 3);
    assert_eq!(
        error.to_text(),
        "line 3: unexpected '@': the subset holds only tables, strings, numbers and booleans"
    );
}

#[test]
fn a_missing_equals_sign_says_what_was_found() {
    assert_eq!(error_of("DB { }").message, "expected '=', found '{'");
    assert_eq!(error_of("DB").message, "expected '=', found end of input");
}

#[test]
fn a_global_needs_a_name() {
    assert_eq!(error_of("= 1").message, "expected a global name");
    assert_eq!(error_of("DB = 1 ?").message, "expected a global name");
}

#[test]
fn a_missing_value_is_the_end_of_input() {
    assert_eq!(error_of("DB = ").message, "unexpected end of input");
}

#[test]
fn table_keys_are_strings_or_integers() {
    assert_eq!(
        error_of("DB = { [true] = 1 }").message,
        "table keys must be strings or integers"
    );
    assert_eq!(
        error_of("DB = { [1.5] = 1 }").message,
        "table keys must be strings or integers"
    );
}

#[test]
fn an_explicit_index_out_of_order_is_refused() {
    assert_eq!(
        error_of("DB = { [2] = 1 }").message,
        "array index 2 out of order (expected 1)"
    );
}

#[test]
fn implicit_entries_count_only_themselves() {
    // Lua's implicit index advances with implicit entries alone, so an
    // explicit entry in between makes the next implicit one collide.
    assert_eq!(
        error_of("DB = { 1, [2] = 2, 3 }").message,
        "array index 2 out of order (expected 3)"
    );
}

#[test]
fn a_malformed_number_is_refused() {
    assert_eq!(error_of("DB = -").message, "\"-\" is not a number");
    assert_eq!(error_of("DB = 1e").message, "\"1e\" is not a number");
}

#[test]
fn tables_may_nest_sixty_four_deep_and_no_deeper() {
    let fits = format!("DB = {}{}", "{".repeat(64), "}".repeat(64));
    assert!(parse_saved_variables(&fits).is_ok());
    let too_deep = format!("DB = {}{}", "{".repeat(65), "}".repeat(65));
    let error = error_of(&too_deep);
    assert_eq!(error.message, "tables nested deeper than 64");
    assert_eq!(error.offset, 5 + 64);
}

#[test]
fn integers_are_read_from_any_literal_that_names_one() {
    let parsed = globals("DB = { 1e3, 2.5, 1000.0, -0, -42, 7E+1 }");
    let value = parsed.get("DB").unwrap();
    let list = &value.as_table().unwrap().array;
    assert_eq!(list[0].as_i64(), Some(1000));
    assert_eq!(list[1].as_i64(), None, "a fraction is not an integer");
    assert_eq!(list[2].as_i64(), Some(1000));
    assert_eq!(list[3].as_i64(), Some(0));
    assert_eq!(list[4].as_i64(), Some(-42));
    assert_eq!(list[5].as_i64(), Some(70));
}

#[test]
fn a_value_names_its_kind() {
    let parsed = globals(r#"DB = { "s", 1, true, { } }"#);
    let value = parsed.get("DB").unwrap();
    let list = &value.as_table().unwrap().array;
    assert_eq!(list[0].kind(), "string");
    assert_eq!(list[1].kind(), "number");
    assert_eq!(list[2].kind(), "boolean");
    assert_eq!(list[3].kind(), "table");
    assert_eq!(list[0].as_i64(), None);
    assert_eq!(list[1].as_str(), None);
    assert!(list[2].as_table().is_none());
}
