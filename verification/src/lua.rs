//! A parser for the restricted Lua subset the collector writes.
//!
//! This is deliberately **not** a Lua interpreter. It reads data, and anything
//! that is not data is an error rather than something to evaluate. The addon
//! and this parser are written together, so the subset is narrow on purpose:
//! assignments of table constructors holding strings, numbers, booleans and
//! nested tables, and nothing else.
//!
//! A file outside the subset means the collector has a bug. Rejecting it loudly
//! is better than recovering something plausible from it.
//!
//! The grammar is written down twice: once as spec functions over the file's
//! bytes (`parse_lua` and the functions it calls), and once as the parser that
//! runs. Every function of the parser is proved to give exactly what the spec
//! functions give, errors and their offsets included.

use vstd::prelude::*;
use vstd::string::StringSliceAdditionalSpecFns;

use crate::literal::{integer_i64, is_number_literal, literal_i64, literal_ok};
use crate::text::{
    ascii_text, char_debug, decimal, has_key, lossy_text, lossy_utf8, key_position, lemma_unique_key, lemma_value_decreases,
    push_char, push_char_debug, push_decimal, push_signed, push_str, signed_decimal,
    sorted_by_key, to_owned_string, value_of, StrMap,
};

verus! {

/// A value in the restricted subset.
#[derive(Debug, PartialEq)]
pub enum LuaValue {
    String(String),
    /// A number, as the literal the file wrote it. Lua has one number type;
    /// keeping the literal means reading it as an integer is exact.
    Number(String),
    Bool(bool),
    Table(LuaTable),
}

/// A Lua table. Keys are kept separate by kind because the collector emits both
/// `["name"]` and `[1]`, and conflating them loses the distinction between a
/// list and a record.
#[derive(Debug, PartialEq)]
pub struct LuaTable {
    pub map: StrMap<LuaValue>,
    pub array: Vec<LuaValue>,
}

/// What a value is, as mathematics: a string's characters, a number's
/// literal, a flag, or a table's named entries and its list.
pub enum LuaModel {
    Str(Seq<char>),
    Num(Seq<char>),
    Flag(bool),
    Table(Map<Seq<char>, LuaModel>, Seq<LuaModel>),
}

/// The mathematical value of a runtime value.
pub open spec fn model_of(v: LuaValue) -> LuaModel
    decreases v,
{
    match v {
        LuaValue::String(s) => LuaModel::Str(s@),
        LuaValue::Number(n) => LuaModel::Num(n@),
        LuaValue::Bool(b) => LuaModel::Flag(b),
        LuaValue::Table(t) => LuaModel::Table(
            Map::new(
                |k: Seq<char>| has_key(t.map@, k),
                |k: Seq<char>|
                    if has_key(t.map@, k) {
                        let i = key_position(t.map@, k);
                        proof {
                            lemma_value_decreases(t.map, i);
                        }
                        model_of(t.map@[i].1)
                    } else {
                        LuaModel::Flag(false)
                    },
            ),
            Seq::new(
                t.array@.len(),
                |i: int|
                    if 0 <= i < t.array@.len() {
                        model_of(t.array@[i])
                    } else {
                        LuaModel::Flag(false)
                    },
            ),
        ),
    }
}

/// The named entries of a map of values, as mathematics.
pub open spec fn map_model(m: StrMap<LuaValue>) -> Map<Seq<char>, LuaModel> {
    Map::new(|k: Seq<char>| has_key(m@, k), |k: Seq<char>| model_of(value_of(m@, k)->0))
}

/// A list of values, as mathematics.
pub open spec fn list_model(s: Seq<LuaValue>) -> Seq<LuaModel> {
    Seq::new(s.len(), |i: int| model_of(s[i]))
}

/// A table's value is its named entries and its list.
pub proof fn lemma_table_model(t: LuaTable)
    ensures
        model_of(LuaValue::Table(t)) == LuaModel::Table(map_model(t.map), list_model(t.array@)),
{
    if let LuaModel::Table(m, a) = model_of(LuaValue::Table(t)) {
        assert(m =~= map_model(t.map));
        assert(a =~= list_model(t.array@));
    }
}

/// A parse failure, carrying the byte offset and the line so a bad file can
/// actually be looked at rather than guessed about.
#[derive(Debug, Clone, PartialEq)]
pub struct ParseError {
    pub message: String,
    pub offset: usize,
    pub line: usize,
}

impl ParseError {
    /// How the error reads: the line, then the message.
    pub fn to_text(&self) -> (text: String)
        ensures
            text@ == "line "@ + decimal(self.line as nat) + ": "@ + self.message@,
    {
        let mut text = to_owned_string("line ");
        push_decimal(&mut text, self.line as u64);
        push_str(&mut text, ": ");
        push_str(&mut text, self.message.as_str());
        text
    }
}

/// What parsing at a position gives: a result and where it ends, or a message
/// and the offset it names.
pub type Parsed<T> = Result<(T, int), (Seq<char>, int)>;

/// Deep nesting is a sign of a malformed or hostile file rather than anything
/// the collector produces; the real schema is about five levels deep.
pub const MAX_DEPTH: usize = 64;

// ---------------------------------------------------------------------------
// Bytes and positions.

/// Whether the byte at `i` is `b`.
pub open spec fn byte_at(bytes: Seq<u8>, i: int, b: u8) -> bool {
    0 <= i < bytes.len() && bytes[i] == b
}

/// Whether `lit` occurs at `i`.
pub open spec fn bytes_at(bytes: Seq<u8>, i: int, lit: Seq<u8>) -> bool {
    0 <= i && i + lit.len() <= bytes.len() && bytes.subrange(i, i + lit.len()) == lit
}

/// How many newlines come before `offset`.
pub open spec fn newlines_before(bytes: Seq<u8>, offset: int) -> nat
    decreases offset,
{
    if offset <= 0 {
        0
    } else {
        newlines_before(bytes, offset - 1) + if byte_at(bytes, offset - 1, 10) {
            1nat
        } else {
            0nat
        }
    }
}

/// The line a byte offset falls on: one more than the newlines before it.
pub open spec fn line_of(bytes: Seq<u8>, offset: int) -> int {
    newlines_before(bytes, offset) as int + 1
}

pub open spec fn is_trivia_space(b: u8) -> bool {
    b == 32 || b == 9 || b == 13 || b == 10
}

pub open spec fn is_ascii_digit(b: u8) -> bool {
    48 <= b <= 57
}

/// Letters, digits and `_`: what a global's name is made of.
pub open spec fn is_name_byte(b: u8) -> bool {
    (48 <= b <= 57) || (65 <= b <= 90) || (97 <= b <= 122) || b == 95
}

/// Where a run of spaces from `i` ends.
pub open spec fn spaces_end(bytes: Seq<u8>, i: int) -> int
    decreases bytes.len() - i,
{
    if 0 <= i < bytes.len() && is_trivia_space(bytes[i]) {
        spaces_end(bytes, i + 1)
    } else {
        i
    }
}

/// Where the line from `i` ends: the next newline, or the end.
pub open spec fn line_end(bytes: Seq<u8>, i: int) -> int
    decreases bytes.len() - i,
{
    if 0 <= i < bytes.len() && bytes[i] != 10 {
        line_end(bytes, i + 1)
    } else {
        i
    }
}

/// Where the next `]]` from `i` starts, or the end.
pub open spec fn block_close(bytes: Seq<u8>, i: int) -> int
    decreases bytes.len() - i,
{
    if 0 <= i < bytes.len() && !(byte_at(bytes, i, 93) && byte_at(bytes, i + 1, 93)) {
        block_close(bytes, i + 1)
    } else {
        i
    }
}

/// Where a run of digits from `i` ends.
pub open spec fn digits_end(bytes: Seq<u8>, i: int) -> int
    decreases bytes.len() - i,
{
    if 0 <= i < bytes.len() && is_ascii_digit(bytes[i]) {
        digits_end(bytes, i + 1)
    } else {
        i
    }
}

/// Where a run of name bytes from `i` ends.
pub open spec fn name_end(bytes: Seq<u8>, i: int) -> int
    decreases bytes.len() - i,
{
    if 0 <= i < bytes.len() && is_name_byte(bytes[i]) {
        name_end(bytes, i + 1)
    } else {
        i
    }
}

proof fn lemma_spaces_end(bytes: Seq<u8>, i: int)
    requires
        0 <= i <= bytes.len(),
    ensures
        i <= spaces_end(bytes, i) <= bytes.len(),
    decreases bytes.len() - i,
{
    if i < bytes.len() && is_trivia_space(bytes[i]) {
        lemma_spaces_end(bytes, i + 1);
    }
}

proof fn lemma_line_end(bytes: Seq<u8>, i: int)
    requires
        0 <= i <= bytes.len(),
    ensures
        i <= line_end(bytes, i) <= bytes.len(),
    decreases bytes.len() - i,
{
    if i < bytes.len() && bytes[i] != 10 {
        lemma_line_end(bytes, i + 1);
    }
}

proof fn lemma_block_close(bytes: Seq<u8>, i: int)
    requires
        0 <= i <= bytes.len(),
    ensures
        i <= block_close(bytes, i) <= bytes.len(),
    decreases bytes.len() - i,
{
    if i < bytes.len() && !(byte_at(bytes, i, 93) && byte_at(bytes, i + 1, 93)) {
        lemma_block_close(bytes, i + 1);
    }
}

proof fn lemma_digits_end(bytes: Seq<u8>, i: int)
    requires
        0 <= i <= bytes.len(),
    ensures
        i <= digits_end(bytes, i) <= bytes.len(),
        forall|j: int| i <= j < digits_end(bytes, i) ==> is_ascii_digit(#[trigger] bytes[j]),
    decreases bytes.len() - i,
{
    if i < bytes.len() && is_ascii_digit(bytes[i]) {
        lemma_digits_end(bytes, i + 1);
    }
}

proof fn lemma_name_end(bytes: Seq<u8>, i: int)
    requires
        0 <= i <= bytes.len(),
    ensures
        i <= name_end(bytes, i) <= bytes.len(),
        forall|j: int| i <= j < name_end(bytes, i) ==> is_name_byte(#[trigger] bytes[j]),
    decreases bytes.len() - i,
{
    if i < bytes.len() && is_name_byte(bytes[i]) {
        lemma_name_end(bytes, i + 1);
    }
}

/// Where the comment opened by `--` at `j - 2` ends: a `--[[` block runs to
/// just past its `]]` (or the end), a line comment to its newline.
pub open spec fn comment_end(bytes: Seq<u8>, j: int) -> int {
    if byte_at(bytes, j, 91) && byte_at(bytes, j + 1, 91) {
        let close = block_close(bytes, j + 2) + 2;
        if close < bytes.len() {
            close
        } else {
            bytes.len() as int
        }
    } else {
        line_end(bytes, j)
    }
}

proof fn lemma_comment_end(bytes: Seq<u8>, j: int)
    requires
        0 <= j <= bytes.len(),
    ensures
        j <= comment_end(bytes, j) <= bytes.len(),
{
    if byte_at(bytes, j, 91) && byte_at(bytes, j + 1, 91) {
        lemma_block_close(bytes, j + 2);
    } else {
        lemma_line_end(bytes, j);
    }
}

/// Whitespace and comments. The collector never writes a comment, but a
/// human looking at a fixture may add one, and rejecting that helps nobody.
pub open spec fn trivia_end(bytes: Seq<u8>, i: int) -> int
    decreases bytes.len() - i,
{
    let j = spaces_end(bytes, i);
    if byte_at(bytes, j, 45) && byte_at(bytes, j + 1, 45) {
        let e = comment_end(bytes, j + 2);
        if i < e <= bytes.len() {
            trivia_end(bytes, e)
        } else {
            e
        }
    } else {
        j
    }
}

pub proof fn lemma_trivia_end(bytes: Seq<u8>, i: int)
    requires
        0 <= i <= bytes.len(),
    ensures
        i <= trivia_end(bytes, i) <= bytes.len(),
    decreases bytes.len() - i,
{
    let j = spaces_end(bytes, i);
    lemma_spaces_end(bytes, i);
    if byte_at(bytes, j, 45) && byte_at(bytes, j + 1, 45) {
        lemma_comment_end(bytes, j + 2);
        lemma_trivia_end(bytes, comment_end(bytes, j + 2));
    }
}

// ---------------------------------------------------------------------------
// Messages.

/// `unexpected 'x': ...`, for a byte that starts no value.
pub open spec fn unexpected_message(b: u8) -> Seq<char> {
    "unexpected "@ + char_debug(b) + ": the subset holds only tables, strings, numbers and booleans"@
}

/// `expected '=', found 'x'` (or `found end of input`).
pub open spec fn expected_message(want: u8, bytes: Seq<u8>, at: int) -> Seq<char> {
    "expected "@ + char_debug(want) + ", found "@ + if 0 <= at < bytes.len() {
        char_debug(bytes[at])
    } else {
        "end of input"@
    }
}

pub open spec fn index_message(index: int, expected: int) -> Seq<char> {
    "array index "@ + signed_decimal(index) + " out of order (expected "@ + signed_decimal(
        expected,
    ) + ")"@
}

pub open spec fn escape_range_message(value: nat) -> Seq<char> {
    "byte escape \\"@ + decimal(value) + " out of range"@
}

pub open spec fn unsupported_escape_message(b: u8) -> Seq<char> {
    "unsupported escape \\"@ + seq![b as char]
}

pub open spec fn not_a_number_message(text: Seq<char>) -> Seq<char> {
    seq!['"'] + text + "\" is not a number"@
}

pub open spec fn keys_message() -> Seq<char> {
    "table keys must be strings or integers"@
}

// ---------------------------------------------------------------------------
// Strings.

/// The byte a one-letter escape stands for, if `e` is one.
pub open spec fn simple_escape(e: u8) -> Option<u8> {
    if e == 110 {
        Some(10u8)
    } else if e == 116 {
        Some(9u8)
    } else if e == 114 {
        Some(13u8)
    } else if e == 97 {
        Some(7u8)
    } else if e == 98 {
        Some(8u8)
    } else if e == 102 {
        Some(12u8)
    } else if e == 118 {
        Some(11u8)
    } else if e == 92 {
        Some(92u8)
    } else if e == 34 {
        Some(34u8)
    } else if e == 39 {
        Some(39u8)
    } else if e == 10 {
        // Lua's %q writes a backslash followed by a real newline for an
        // embedded newline.
        Some(10u8)
    } else {
        None
    }
}

pub open spec fn digit_at(bytes: Seq<u8>, i: int) -> bool {
    0 <= i < bytes.len() && is_ascii_digit(bytes[i])
}

/// Where a decimal byte escape whose first digit is at `i` ends: it takes up
/// to three digits.
pub open spec fn escape_end(bytes: Seq<u8>, i: int) -> int {
    if digit_at(bytes, i + 1) {
        if digit_at(bytes, i + 2) {
            i + 3
        } else {
            i + 2
        }
    } else {
        i + 1
    }
}

/// The value of a run of ASCII digit bytes.
pub open spec fn bytes_value(s: Seq<u8>) -> nat
    decreases s.len(),
{
    if s.len() == 0 {
        0
    } else {
        bytes_value(s.drop_last()) * 10 + (s.last() - 48) as nat
    }
}

/// The bytes of the rest of a string literal from `i`, after its opening
/// quote, with `raw` gathered so far. Escapes stand for the bytes they name
/// and every other byte stands for itself, as Lua reads a string.
pub open spec fn string_bytes(bytes: Seq<u8>, i: int, raw: Seq<u8>) -> Parsed<Seq<u8>>
    decreases bytes.len() - i,
{
    if i < 0 || i >= bytes.len() {
        Err(("unterminated string"@, i))
    } else {
        let b = bytes[i];
        if b == 34 {
            Ok((raw, i + 1))
        } else if b == 92 {
            if i + 1 >= bytes.len() {
                Err(("unterminated escape"@, i + 1))
            } else {
                let e = bytes[i + 1];
                match simple_escape(e) {
                    Some(c) => string_bytes(bytes, i + 2, raw.push(c)),
                    None => if is_ascii_digit(e) {
                        let end = escape_end(bytes, i + 1);
                        let value = bytes_value(bytes.subrange(i + 1, end));
                        if value > 255 {
                            Err((escape_range_message(value), end))
                        } else {
                            string_bytes(bytes, end, raw.push(value as u8))
                        }
                    } else {
                        Err((unsupported_escape_message(e), i + 2))
                    },
                }
            }
        } else {
            string_bytes(bytes, i + 1, raw.push(b))
        }
    }
}

/// The text of a string literal whose body starts at `i`: its bytes, raw and
/// escaped alike, decoded together as UTF-8, with each malformed sequence
/// read as U+FFFD. WoW writes UTF-8, but an addon can store arbitrary bytes,
/// and replacing them keeps the rest of the file readable.
pub open spec fn string_body(bytes: Seq<u8>, i: int) -> Parsed<Seq<char>> {
    match string_bytes(bytes, i, Seq::empty()) {
        Ok((raw, end)) => Ok((lossy_utf8(raw), end)),
        Err(x) => Err(x),
    }
}

// ---------------------------------------------------------------------------
// Numbers.

/// Where the number that starts at `i` ends: `-?D*(.D*)?([eE][+-]?D*)?`.
pub open spec fn number_end(bytes: Seq<u8>, i: int) -> int {
    let a = if byte_at(bytes, i, 45) {
        i + 1
    } else {
        i
    };
    let b = digits_end(bytes, a);
    let c = if byte_at(bytes, b, 46) {
        digits_end(bytes, b + 1)
    } else {
        b
    };
    if byte_at(bytes, c, 101) || byte_at(bytes, c, 69) {
        let d = if byte_at(bytes, c + 1, 43) || byte_at(bytes, c + 1, 45) {
            c + 2
        } else {
            c + 1
        };
        digits_end(bytes, d)
    } else {
        c
    }
}

/// The number literal at `i`, which must read as one.
pub open spec fn number_at(bytes: Seq<u8>, i: int) -> Parsed<Seq<char>> {
    let e = number_end(bytes, i);
    let text = ascii_text(bytes.subrange(i, e));
    if is_number_literal(text) {
        Ok((text, e))
    } else {
        Err((not_a_number_message(text), e))
    }
}

// ---------------------------------------------------------------------------
// Values and tables.

/// A table key: a name, or an array index.
pub enum KeyModel {
    Name(Seq<char>),
    Index(int),
}

/// The `[...]` key whose text starts at `q`: a string, or a number that names
/// an integer.
pub open spec fn key_at(bytes: Seq<u8>, q: int) -> Parsed<KeyModel> {
    if byte_at(bytes, q, 34) {
        match string_body(bytes, q + 1) {
            Ok((name, e)) => Ok((KeyModel::Name(name), e)),
            Err(x) => Err(x),
        }
    } else if byte_at(bytes, q, 45) || digit_at(bytes, q) {
        match number_at(bytes, q) {
            Ok((text, e)) => match integer_i64(text) {
                Some(index) => Ok((KeyModel::Index(index as int), e)),
                None => Err((keys_message(), e)),
            },
            Err(x) => Err(x),
        }
    } else {
        Err((keys_message(), q))
    }
}

/// A table after one more entry. Array entries must arrive in order and
/// without gaps: WoW's writer always emits them that way, and anything else
/// means the file was produced by something else.
pub open spec fn insert_entry(
    map: Map<Seq<char>, LuaModel>,
    list: Seq<LuaModel>,
    key: KeyModel,
    value: LuaModel,
    at: int,
) -> Result<(Map<Seq<char>, LuaModel>, Seq<LuaModel>), (Seq<char>, int)> {
    match key {
        KeyModel::Name(name) => Ok((map.insert(name, value), list)),
        KeyModel::Index(index) => if index == list.len() + 1 {
            Ok((map, list.push(value)))
        } else {
            Err((index_message(index, list.len() + 1int), at))
        },
    }
}

pub open spec fn is_value_start(b: u8) -> bool {
    b == 45 || is_ascii_digit(b)
}

/// The value that starts at `i`, inside `depth` tables.
pub open spec fn value_at(bytes: Seq<u8>, i: int, depth: int) -> Parsed<LuaModel>
    decreases bytes.len() - i, 1int,
{
    if i < 0 || i >= bytes.len() {
        Err(("unexpected end of input"@, i))
    } else {
        let b = bytes[i];
        if b == 123 {
            table_at(bytes, i, depth)
        } else if b == 34 {
            match string_body(bytes, i + 1) {
                Ok((text, e)) => Ok((LuaModel::Str(text), e)),
                Err(x) => Err(x),
            }
        } else if is_value_start(b) {
            match number_at(bytes, i) {
                Ok((text, e)) => Ok((LuaModel::Num(text), e)),
                Err(x) => Err(x),
            }
        } else if b == 116 && bytes_at(bytes, i, seq![116u8, 114, 117, 101]) {
            Ok((LuaModel::Flag(true), i + 4))
        } else if b == 102 && bytes_at(bytes, i, seq![102u8, 97, 108, 115, 101]) {
            Ok((LuaModel::Flag(false), i + 5))
        } else if b == 110 && bytes_at(bytes, i, seq![110u8, 105, 108]) {
            // The collector never stores nil; a key it cannot fill is simply
            // absent. A literal nil means something else wrote here.
            Err(("nil is not part of the collector's subset"@, i))
        } else {
            Err((unexpected_message(b), i))
        }
    }
}

/// The table whose `{` is at `i`.
pub open spec fn table_at(bytes: Seq<u8>, i: int, depth: int) -> Parsed<LuaModel>
    decreases bytes.len() - i, 0int,
{
    if depth >= 64 {
        Err(("tables nested deeper than 64"@, i))
    } else if !byte_at(bytes, i, 123) {
        Err((expected_message(123, bytes, i), i))
    } else {
        entries_at(bytes, i + 1, depth + 1, Map::empty(), Seq::empty(), 1)
    }
}

/// The entries of a table from `j` on, with `map` and `list` read so far and
/// `implicit` the index the next entry without a key takes.
pub open spec fn entries_at(
    bytes: Seq<u8>,
    j: int,
    depth: int,
    map: Map<Seq<char>, LuaModel>,
    list: Seq<LuaModel>,
    implicit: int,
) -> Parsed<LuaModel>
    decreases bytes.len() - j, 3int,
{
    let p = trivia_end(bytes, j);
    if p < j || p >= bytes.len() {
        Err(("unterminated table"@, p))
    } else if bytes[p] == 125 {
        Ok((LuaModel::Table(map, list), p + 1))
    } else {
        match entry_at(bytes, p, depth, map, list, implicit) {
            Err(x) => Err(x),
            Ok((map2, list2, implicit2, end)) => {
                let z = trivia_end(bytes, end);
                if byte_at(bytes, z, 44) || byte_at(bytes, z, 59) {
                    if j < z + 1 <= bytes.len() {
                        entries_at(bytes, z + 1, depth, map2, list2, implicit2)
                    } else {
                        Err(("unterminated table"@, z))
                    }
                } else if byte_at(bytes, z, 125) {
                    if j < z <= bytes.len() {
                        entries_at(bytes, z, depth, map2, list2, implicit2)
                    } else {
                        Err(("unterminated table"@, z))
                    }
                } else {
                    Err(("expected ',' or '}' after a table entry"@, z))
                }
            },
        }
    }
}

/// One table entry at `p`: `[key] = value`, or a value that takes the next
/// implicit index. Gives the table after it, the next implicit index, and
/// where the entry ends.
pub open spec fn entry_at(
    bytes: Seq<u8>,
    p: int,
    depth: int,
    map: Map<Seq<char>, LuaModel>,
    list: Seq<LuaModel>,
    implicit: int,
) -> Result<(Map<Seq<char>, LuaModel>, Seq<LuaModel>, int, int), (Seq<char>, int)>
    decreases bytes.len() - p, 2int,
{
    if p < 0 || p > bytes.len() {
        Err(("unterminated table"@, p))
    } else if byte_at(bytes, p, 91) {
        let q = trivia_end(bytes, p + 1);
        proof {
            lemma_trivia_end(bytes, p + 1);
        }
        match key_at(bytes, q) {
            Err(x) => Err(x),
            Ok((key, ke)) => {
                let r = trivia_end(bytes, ke);
                if !byte_at(bytes, r, 93) {
                    Err((expected_message(93, bytes, r), r))
                } else {
                    let s = trivia_end(bytes, r + 1);
                    if !byte_at(bytes, s, 61) {
                        Err((expected_message(61, bytes, s), s))
                    } else {
                        let t = trivia_end(bytes, s + 1);
                        if p < t <= bytes.len() {
                            match value_at(bytes, t, depth) {
                                Err(x) => Err(x),
                                Ok((value, end)) => match insert_entry(map, list, key, value, end) {
                                    Err(x) => Err(x),
                                    Ok((map2, list2)) => Ok((map2, list2, implicit, end)),
                                },
                            }
                        } else {
                            Err(("unterminated table"@, t))
                        }
                    }
                }
            },
        }
    } else {
        match value_at(bytes, p, depth) {
            Err(x) => Err(x),
            Ok((value, end)) => match insert_entry(
                map,
                list,
                KeyModel::Index(implicit),
                value,
                end,
            ) {
                Err(x) => Err(x),
                Ok((map2, list2)) => Ok((map2, list2, implicit + 1, end)),
            },
        }
    }
}

/// The assignments from `p`, which trivia has already been skipped to, with
/// `globals` read so far. WoW writes one `GlobalName = { ... }` per saved
/// variable and no separator between them, but a stray `;` is tolerated.
pub open spec fn globals_at(bytes: Seq<u8>, p: int, globals: Map<Seq<char>, LuaModel>) -> Result<
    Map<Seq<char>, LuaModel>,
    (Seq<char>, int),
>
    decreases bytes.len() - p,
{
    if p < 0 || p >= bytes.len() {
        Ok(globals)
    } else {
        let e = name_end(bytes, p);
        if e == p {
            Err(("expected a global name"@, p))
        } else {
            let name = ascii_text(bytes.subrange(p, e));
            let q = trivia_end(bytes, e);
            if !byte_at(bytes, q, 61) {
                Err((expected_message(61, bytes, q), q))
            } else {
                let r = trivia_end(bytes, q + 1);
                match value_at(bytes, r, 0) {
                    Err(x) => Err(x),
                    Ok((value, end)) => {
                        let s = trivia_end(bytes, end);
                        let next = if byte_at(bytes, s, 59) {
                            trivia_end(bytes, s + 1)
                        } else {
                            s
                        };
                        if p < next <= bytes.len() {
                            globals_at(bytes, next, globals.insert(name, value))
                        } else {
                            Ok(globals.insert(name, value))
                        }
                    },
                }
            }
        }
    }
}

/// What a file holds: its top-level assignments by global name, or the first
/// error and the offset it names.
pub open spec fn parse_lua(bytes: Seq<u8>) -> Result<Map<Seq<char>, LuaModel>, (Seq<char>, int)> {
    globals_at(bytes, trivia_end(bytes, 0), Map::empty())
}

// ---------------------------------------------------------------------------
// The parser.

/// A failure before its line is counted.
struct Failure {
    message: String,
    offset: usize,
}

spec fn failure_view(f: Failure) -> (Seq<char>, int) {
    (f.message@, f.offset as int)
}

fn fail(message: &str, offset: usize) -> (f: Failure)
    ensures
        failure_view(f) == (message@, offset as int),
{
    Failure { message: to_owned_string(message), offset }
}

fn spaces(bytes: &[u8], i: usize) -> (end: usize)
    requires
        i <= bytes@.len(),
    ensures
        end == spaces_end(bytes@, i as int),
        i <= end <= bytes@.len(),
{
    let mut j = i;
    while j < bytes.len() && (bytes[j] == 32 || bytes[j] == 9 || bytes[j] == 13 || bytes[j] == 10)
        invariant
            i <= j <= bytes@.len(),
            spaces_end(bytes@, j as int) == spaces_end(bytes@, i as int),
        decreases bytes@.len() - j,
    {
        j = j + 1;
    }
    j
}

fn comment(bytes: &[u8], j: usize) -> (end: usize)
    requires
        j <= bytes@.len(),
    ensures
        end == comment_end(bytes@, j as int),
        j <= end <= bytes@.len(),
{
    let n = bytes.len();
    if j < n && bytes[j] == 91 && j + 1 < n && bytes[j + 1] == 91 {
        let mut k = j + 2;
        while k < n && !(bytes[k] == 93 && k + 1 < n && bytes[k + 1] == 93)
            invariant
                j + 2 <= k <= n,
                n == bytes@.len(),
                block_close(bytes@, k as int) == block_close(bytes@, j + 2),
            decreases n - k,
        {
            k = k + 1;
        }
        if n - k >= 2 {
            k + 2
        } else {
            n
        }
    } else {
        let mut k = j;
        while k < n && bytes[k] != 10
            invariant
                j <= k <= n,
                n == bytes@.len(),
                line_end(bytes@, k as int) == line_end(bytes@, j as int),
            decreases n - k,
        {
            k = k + 1;
        }
        k
    }
}

/// Skip whitespace and comments from `i`.
fn trivia(bytes: &[u8], i: usize) -> (end: usize)
    requires
        i <= bytes@.len(),
    ensures
        end == trivia_end(bytes@, i as int),
        i <= end <= bytes@.len(),
{
    let mut j = i;
    loop
        invariant
            i <= j <= bytes@.len(),
            trivia_end(bytes@, j as int) == trivia_end(bytes@, i as int),
        decreases bytes@.len() - j,
    {
        let k = spaces(bytes, j);
        if k < bytes.len() && bytes[k] == 45 && k + 1 < bytes.len() && bytes[k + 1] == 45 {
            let e = comment(bytes, k + 2);
            j = e;
        } else {
            return k;
        }
    }
}

/// The line an offset falls on.
fn line_at(bytes: &[u8], offset: usize) -> (line: usize)
    requires
        offset <= bytes@.len(),
        bytes@.len() < usize::MAX,
    ensures
        line as int == line_of(bytes@, offset as int),
{
    let mut count: usize = 0;
    let mut i: usize = 0;
    while i < offset
        invariant
            i <= offset <= bytes@.len() < usize::MAX,
            count == newlines_before(bytes@, i as int),
            count <= i,
        decreases offset - i,
    {
        if bytes[i] == 10 {
            count = count + 1;
        }
        i = i + 1;
    }
    count + 1
}

/// The characters of ASCII bytes `bytes[i..e]`.
fn ascii_string(bytes: &[u8], i: usize, e: usize) -> (text: String)
    requires
        i <= e <= bytes@.len(),
    ensures
        text@ == ascii_text(bytes@.subrange(i as int, e as int)),
{
    let mut text = String::new();
    let mut k = i;
    while k < e
        invariant
            i <= k <= e <= bytes@.len(),
            text@ == ascii_text(bytes@.subrange(i as int, k as int)),
        decreases e - k,
    {
        push_char(&mut text, bytes[k] as char);
        k = k + 1;
        assert(ascii_text(bytes@.subrange(i as int, k as int)) =~= ascii_text(
            bytes@.subrange(i as int, k - 1),
        ).push(bytes@[k - 1] as char));
    }
    text
}

fn expected_failure(want: u8, bytes: &[u8], at: usize) -> (f: Failure)
    requires
        at <= bytes@.len(),
    ensures
        failure_view(f) == (expected_message(want, bytes@, at as int), at as int),
{
    let mut message = to_owned_string("expected ");
    push_char_debug(&mut message, want);
    push_str(&mut message, ", found ");
    if at < bytes.len() {
        push_char_debug(&mut message, bytes[at]);
    } else {
        push_str(&mut message, "end of input");
    }
    proof {
        assert(message@ =~= expected_message(want, bytes@, at as int));
    }
    Failure { message, offset: at }
}

fn escape_of(e: u8) -> (c: Option<u8>)
    ensures
        c == simple_escape(e),
{
    if e == 110 {
        Some(10)
    } else if e == 116 {
        Some(9)
    } else if e == 114 {
        Some(13)
    } else if e == 97 {
        Some(7)
    } else if e == 98 {
        Some(8)
    } else if e == 102 {
        Some(12)
    } else if e == 118 {
        Some(11)
    } else if e == 92 {
        Some(92)
    } else if e == 34 {
        Some(34)
    } else if e == 39 {
        Some(39)
    } else if e == 10 {
        Some(10)
    } else {
        None
    }
}

spec fn text_result(r: Result<(String, usize), Failure>) -> Parsed<Seq<char>> {
    match r {
        Ok((text, end)) => Ok((text@, end as int)),
        Err(f) => Err(failure_view(f)),
    }
}

spec fn settles(r: Result<(String, usize), Failure>, start: int, n: int) -> bool {
    match r {
        Ok((_, end)) => start < end <= n,
        Err(f) => f.offset <= n,
    }
}

/// A decimal byte escape whose first digit is at `i`: its end and value.
fn escape_value(bytes: &[u8], i: usize) -> (r: (usize, u32))
    requires
        i < bytes@.len(),
        is_ascii_digit(bytes@[i as int]),
    ensures
        r.0 as int == escape_end(bytes@, i as int),
        r.1 as nat == bytes_value(bytes@.subrange(i as int, r.0 as int)),
        r.0 <= bytes@.len(),
{
    let n = bytes.len();
    let first = (bytes[i] - 48) as u32;
    let ghost s1 = bytes@.subrange(i as int, i + 1);
    assert(s1.drop_last() =~= Seq::<u8>::empty());
    assert(s1.last() == bytes@[i as int]);
    assert(bytes_value(Seq::<u8>::empty()) == 0);
    assert(bytes_value(s1) == first);
    if i + 1 < n && 48 <= bytes[i + 1] && bytes[i + 1] <= 57 {
        let second = first * 10 + (bytes[i + 1] - 48) as u32;
        let ghost s2 = bytes@.subrange(i as int, i + 2);
        assert(s2.drop_last() =~= s1);
        assert(bytes_value(s2) == second);
        if i + 2 < n && 48 <= bytes[i + 2] && bytes[i + 2] <= 57 {
            let third = second * 10 + (bytes[i + 2] - 48) as u32;
            let ghost s3 = bytes@.subrange(i as int, i + 3);
            assert(s3.drop_last() =~= s2);
            (i + 3, third)
        } else {
            (i + 2, second)
        }
    } else {
        (i + 1, first)
    }
}

fn escape_range_failure(value: u32, at: usize) -> (f: Failure)
    ensures
        failure_view(f) == (escape_range_message(value as nat), at as int),
{
    let mut message = to_owned_string("byte escape \\");
    push_decimal(&mut message, value as u64);
    push_str(&mut message, " out of range");
    proof {
        assert(message@ =~= escape_range_message(value as nat));
    }
    Failure { message, offset: at }
}

fn unsupported_escape_failure(e: u8, at: usize) -> (f: Failure)
    ensures
        failure_view(f) == (unsupported_escape_message(e), at as int),
{
    let mut message = to_owned_string("unsupported escape \\");
    push_char(&mut message, e as char);
    proof {
        assert(message@ =~= unsupported_escape_message(e));
    }
    Failure { message, offset: at }
}

/// The rest of a string literal from `start`, just after its opening quote.
fn parse_string_body(bytes: &[u8], start: usize) -> (r: Result<(String, usize), Failure>)
    requires
        start <= bytes@.len(),
    ensures
        text_result(r) == string_body(bytes@, start as int),
        settles(r, start as int, bytes@.len() as int),
{
    let n = bytes.len();
    let mut raw: Vec<u8> = Vec::new();
    let mut i = start;
    loop
        invariant
            start <= i <= n,
            n == bytes@.len(),
            string_bytes(bytes@, start as int, Seq::empty()) == string_bytes(
                bytes@,
                i as int,
                raw@,
            ),
        decreases n - i,
    {
        if i >= n {
            return Err(fail("unterminated string", i));
        }
        let b = bytes[i];
        if b == 34 {
            let text = lossy_text(raw.as_slice());
            return Ok((text, i + 1));
        }
        if b == 92 {
            if i + 1 >= n {
                return Err(fail("unterminated escape", i + 1));
            }
            let e = bytes[i + 1];
            match escape_of(e) {
                Some(c) => {
                    raw.push(c);
                    i = i + 2;
                },
                None => {
                    if 48 <= e && e <= 57 {
                        let (end, value) = escape_value(bytes, i + 1);
                        if value > 255 {
                            return Err(escape_range_failure(value, end));
                        }
                        raw.push(value as u8);
                        i = end;
                    } else {
                        return Err(unsupported_escape_failure(e, i + 2));
                    }
                },
            }
        } else {
            raw.push(b);
            i = i + 1;
        }
    }
}

fn digits(bytes: &[u8], i: usize) -> (end: usize)
    requires
        i <= bytes@.len(),
    ensures
        end == digits_end(bytes@, i as int),
        i <= end <= bytes@.len(),
{
    let mut j = i;
    while j < bytes.len() && 48 <= bytes[j] && bytes[j] <= 57
        invariant
            i <= j <= bytes@.len(),
            digits_end(bytes@, j as int) == digits_end(bytes@, i as int),
        decreases bytes@.len() - j,
    {
        j = j + 1;
    }
    j
}

fn number_end_of(bytes: &[u8], i: usize) -> (end: usize)
    requires
        i <= bytes@.len(),
    ensures
        end == number_end(bytes@, i as int),
        i <= end <= bytes@.len(),
{
    let n = bytes.len();
    let a = if i < n && bytes[i] == 45 {
        i + 1
    } else {
        i
    };
    let b = digits(bytes, a);
    let c = if b < n && bytes[b] == 46 {
        digits(bytes, b + 1)
    } else {
        b
    };
    if c < n && (bytes[c] == 101 || bytes[c] == 69) {
        let d = if c + 1 < n && (bytes[c + 1] == 43 || bytes[c + 1] == 45) {
            c + 2
        } else {
            c + 1
        };
        digits(bytes, d)
    } else {
        c
    }
}

/// The number literal at `i`.
fn parse_number(bytes: &[u8], i: usize) -> (r: Result<(String, usize), Failure>)
    requires
        i <= bytes@.len(),
    ensures
        text_result(r) == number_at(bytes@, i as int),
        settles(r, i as int, bytes@.len() as int),
{
    let e = number_end_of(bytes, i);
    let piece = vstd::slice::slice_subrange(bytes, i, e);
    let text = ascii_string(bytes, i, e);
    if literal_ok(piece) {
        proof {
            if e == i {
                assert(ascii_text(piece@).len() == 0);
                assert(!is_number_literal(ascii_text(piece@)));
            }
        }
        Ok((text, e))
    } else {
        let mut message = String::new();
        push_char(&mut message, '"');
        push_str(&mut message, text.as_str());
        push_str(&mut message, "\" is not a number");
        proof {
            assert(message@ =~= not_a_number_message(text@));
        }
        Err(Failure { message, offset: e })
    }
}

/// A table key as read.
enum TableKey {
    Name(String),
    Index(i64),
}

spec fn key_view(key: TableKey) -> KeyModel {
    match key {
        TableKey::Name(name) => KeyModel::Name(name@),
        TableKey::Index(index) => KeyModel::Index(index as int),
    }
}

/// The key whose text starts at `q`, inside `[...]`.
fn parse_key(bytes: &[u8], q: usize) -> (r: Result<(TableKey, usize), Failure>)
    requires
        q <= bytes@.len(),
    ensures
        match r {
            Ok((key, end)) => key_at(bytes@, q as int) == Parsed::Ok((key_view(key), end as int))
                && q < end <= bytes@.len(),
            Err(f) => key_at(bytes@, q as int) == Parsed::<KeyModel>::Err(failure_view(f))
                && f.offset <= bytes@.len(),
        },
{
    let n = bytes.len();
    if q < n && bytes[q] == 34 {
        match parse_string_body(bytes, q + 1) {
            Ok((name, end)) => Ok((TableKey::Name(name), end)),
            Err(f) => Err(f),
        }
    } else if q < n && (bytes[q] == 45 || (48 <= bytes[q] && bytes[q] <= 57)) {
        match parse_number(bytes, q) {
            Ok((text, end)) => {
                let piece = vstd::slice::slice_subrange(bytes, q, end);
                match literal_i64(piece) {
                    Some(index) => Ok((TableKey::Index(index), end)),
                    None => Err(fail("table keys must be strings or integers", end)),
                }
            },
            Err(f) => Err(f),
        }
    } else {
        Err(fail("table keys must be strings or integers", q))
    }
}

fn index_failure(index: i64, expected: i64, at: usize) -> (f: Failure)
    ensures
        failure_view(f) == (index_message(index as int, expected as int), at as int),
{
    let mut message = to_owned_string("array index ");
    push_signed(&mut message, index);
    push_str(&mut message, " out of order (expected ");
    push_signed(&mut message, expected);
    push_str(&mut message, ")");
    proof {
        assert(message@ =~= index_message(index as int, expected as int));
    }
    Failure { message, offset: at }
}

/// A map of values after an insert has the inserted value under its key and
/// everything else as before.
proof fn lemma_map_model_insert(
    before: StrMap<LuaValue>,
    after: StrMap<LuaValue>,
    k: Seq<char>,
    v: LuaValue,
)
    requires
        sorted_by_key(before@),
        sorted_by_key(after@),
        forall|e: (Seq<char>, LuaValue)|
            #![trigger after@.contains(e)]
            #![trigger before@.contains(e)]
            after@.contains(e) <==> (e == (k, v) || (before@.contains(e) && e.0 != k)),
    ensures
        map_model(after) == map_model(before).insert(k, model_of(v)),
{
    let lhs = map_model(after);
    let rhs = map_model(before).insert(k, model_of(v));
    assert forall|x: Seq<char>| #[trigger] lhs.dom().contains(x) <==> rhs.dom().contains(x) by {
        if has_key(after@, x) {
            let i = choose|i: int| 0 <= i < after@.len() && #[trigger] after@[i].0 == x;
            assert(after@.contains(after@[i]));
            if x != k {
                assert(before@.contains(after@[i]));
                let j = choose|j: int| 0 <= j < before@.len() && before@[j] == after@[i];
                assert(before@[j].0 == x);
            }
        }
        if x == k {
            assert(after@.contains((k, v)));
            let i = choose|i: int| 0 <= i < after@.len() && after@[i] == (k, v);
            assert(after@[i].0 == x);
        } else if has_key(before@, x) {
            let j = choose|j: int| 0 <= j < before@.len() && #[trigger] before@[j].0 == x;
            assert(before@.contains(before@[j]));
            assert(after@.contains(before@[j]));
            let i = choose|i: int| 0 <= i < after@.len() && after@[i] == before@[j];
            assert(after@[i].0 == x);
        }
    }
    assert forall|x: Seq<char>| #[trigger] lhs.dom().contains(x) implies lhs[x] == rhs[x] by {
        if x == k {
            assert(after@.contains((k, v)));
            let i = choose|i: int| 0 <= i < after@.len() && after@[i] == (k, v);
            lemma_unique_key(after@, i, k);
        } else {
            let j = choose|j: int| 0 <= j < before@.len() && #[trigger] before@[j].0 == x;
            lemma_unique_key(before@, j, x);
            assert(before@.contains(before@[j]));
            assert(after@.contains(before@[j]));
            let i = choose|i: int| 0 <= i < after@.len() && after@[i] == before@[j];
            lemma_unique_key(after@, i, x);
        }
    }
    assert(lhs =~= rhs);
}

/// Add an entry to a table, or fail because an array index is out of order.
fn insert(table: &mut LuaTable, key: TableKey, value: LuaValue, at: usize) -> (r: Result<(), Failure>)
    requires
        old(table).array@.len() < i64::MAX,
    ensures
        insert_entry(
            map_model(old(table).map),
            list_model(old(table).array@),
            key_view(key),
            model_of(value),
            at as int,
        ) == match r {
            Ok(_) => Ok((map_model(final(table).map), list_model(final(table).array@))),
            Err(f) => Err(failure_view(f)),
        },
        final(table).array@.len() <= old(table).array@.len() + 1,
{
    let ghost model = model_of(value);
    match key {
        TableKey::Name(name) => {
            let ghost before = table.map;
            let ghost k = name@;
            table.map.lemma_sorted();
            table.map.insert(name, value);
            proof {
                lemma_map_model_insert(before, table.map, k, value);
            }
            Ok(())
        },
        TableKey::Index(index) => {
            let expected = table.array.len() as i64 + 1;
            if index != expected {
                return Err(index_failure(index, expected, at));
            }
            let ghost before = table.array@;
            table.array.push(value);
            proof {
                assert(list_model(table.array@) =~= list_model(before).push(model));
            }
            Ok(())
        },
    }
}

spec fn value_result(r: Result<(LuaValue, usize), Failure>) -> Parsed<LuaModel> {
    match r {
        Ok((value, end)) => Ok((model_of(value), end as int)),
        Err(f) => Err(failure_view(f)),
    }
}

spec fn value_settles(r: Result<(LuaValue, usize), Failure>, start: int, n: int) -> bool {
    match r {
        Ok((_, end)) => start < end <= n,
        Err(f) => f.offset <= n,
    }
}

proof fn lemma_bytes_at(bytes: Seq<u8>, i: int, lit: Seq<u8>)
    requires
        0 <= i,
        i + lit.len() <= bytes.len(),
        forall|j: int| 0 <= j < lit.len() ==> bytes[i + j] == lit[j],
    ensures
        bytes_at(bytes, i, lit),
{
    assert(bytes.subrange(i, i + lit.len()) =~= lit);
}

proof fn lemma_not_bytes_at(bytes: Seq<u8>, i: int, lit: Seq<u8>, j: int)
    requires
        0 <= j < lit.len(),
        0 <= i + j < bytes.len(),
        bytes[i + j] != lit[j],
    ensures
        !bytes_at(bytes, i, lit),
{
    if bytes_at(bytes, i, lit) {
        assert(bytes.subrange(i, i + lit.len())[j] == bytes[i + j]);
    }
}

/// Whether `lit` occurs at `i`.
fn starts_with(bytes: &[u8], i: usize, lit: &Vec<u8>) -> (found: bool)
    requires
        i <= bytes@.len(),
    ensures
        found == bytes_at(bytes@, i as int, lit@),
{
    if bytes.len() - i < lit.len() {
        return false;
    }
    let n = bytes.len();
    let mut j: usize = 0;
    while j < lit.len()
        invariant
            j <= lit@.len(),
            n == bytes@.len(),
            i + lit@.len() <= n,
            forall|t: int| 0 <= t < j ==> bytes@[i + t] == lit@[t],
        decreases lit@.len() - j,
    {
        assert(i + j < bytes@.len());
        if bytes[i + j] != lit[j] {
            proof {
                lemma_not_bytes_at(bytes@, i as int, lit@, j as int);
            }
            return false;
        }
        j = j + 1;
    }
    proof {
        lemma_bytes_at(bytes@, i as int, lit@);
    }
    true
}

/// The value that starts at `pos`, inside `depth` tables.
fn parse_value(bytes: &[u8], pos: usize, depth: usize) -> (r: Result<(LuaValue, usize), Failure>)
    requires
        pos <= bytes@.len(),
        depth <= MAX_DEPTH,
        bytes@.len() < i64::MAX,
    ensures
        value_result(r) == value_goal(bytes@, pos as int, depth as int),
        value_settles(r, pos as int, bytes@.len() as int),
    decreases bytes@.len() - pos, 1int,
{
    if pos >= bytes.len() {
        proof {
            reveal(value_goal);
        }
        return Err(fail("unexpected end of input", pos));
    }
    proof {
        lemma_value_goal(bytes@, pos as int, depth as int);
    }
    let b = bytes[pos];
    if b == 123 {
        parse_table(bytes, pos, depth)
    } else if b == 34 {
        match parse_string_body(bytes, pos + 1) {
            Ok((text, end)) => Ok((LuaValue::String(text), end)),
            Err(f) => Err(f),
        }
    } else if b == 45 || (48 <= b && b <= 57) {
        match parse_number(bytes, pos) {
            Ok((text, end)) => Ok((LuaValue::Number(text), end)),
            Err(f) => Err(f),
        }
    } else if b == 116 && starts_with(bytes, pos, &vec![116u8, 114, 117, 101]) {
        Ok((LuaValue::Bool(true), pos + 4))
    } else if b == 102 && starts_with(bytes, pos, &vec![102u8, 97, 108, 115, 101]) {
        Ok((LuaValue::Bool(false), pos + 5))
    } else if b == 110 && starts_with(bytes, pos, &vec![110u8, 105, 108]) {
        Err(fail("nil is not part of the collector's subset", pos))
    } else {
        let mut message = to_owned_string("unexpected ");
        push_char_debug(&mut message, b);
        push_str(
            &mut message,
            ": the subset holds only tables, strings, numbers and booleans",
        );
        proof {
            assert(message@ =~= unexpected_message(b));
        }
        Err(Failure { message, offset: pos })
    }
}

/// What the entries from `j` give: the end of the table, or one entry and
/// then the entries after it.
proof fn lemma_entries_at(
    bytes: Seq<u8>,
    j: int,
    depth: int,
    map: Map<Seq<char>, LuaModel>,
    list: Seq<LuaModel>,
    implicit: int,
)
    requires
        0 <= j <= bytes.len(),
    ensures
        trivia_end(bytes, j) >= bytes.len() ==> entries_at(bytes, j, depth, map, list, implicit)
            == Parsed::<LuaModel>::Err(("unterminated table"@, trivia_end(bytes, j))),
        trivia_end(bytes, j) < bytes.len() && bytes[trivia_end(bytes, j)] == 125 ==> entries_at(
            bytes,
            j,
            depth,
            map,
            list,
            implicit,
        ) == Parsed::Ok((LuaModel::Table(map, list), trivia_end(bytes, j) + 1)),
        trivia_end(bytes, j) < bytes.len() && bytes[trivia_end(bytes, j)] != 125 ==> entries_at(
            bytes,
            j,
            depth,
            map,
            list,
            implicit,
        ) == entries_after(
            bytes,
            j,
            depth,
            entry_at(bytes, trivia_end(bytes, j), depth, map, list, implicit),
        ),
{
    lemma_trivia_end(bytes, j);
}

/// The entries of a table after the entry that starts at or after `j`.
pub open spec fn entries_after(
    bytes: Seq<u8>,
    j: int,
    depth: int,
    entry: Result<(Map<Seq<char>, LuaModel>, Seq<LuaModel>, int, int), (Seq<char>, int)>,
) -> Parsed<LuaModel> {
    match entry {
        Err(x) => Err(x),
        Ok((map2, list2, implicit2, end)) => {
            let z = trivia_end(bytes, end);
            if byte_at(bytes, z, 44) || byte_at(bytes, z, 59) {
                if j < z + 1 <= bytes.len() {
                    entries_at(bytes, z + 1, depth, map2, list2, implicit2)
                } else {
                    Err(("unterminated table"@, z))
                }
            } else if byte_at(bytes, z, 125) {
                if j < z <= bytes.len() {
                    entries_at(bytes, z, depth, map2, list2, implicit2)
                } else {
                    Err(("unterminated table"@, z))
                }
            } else {
                Err(("expected ',' or '}' after a table entry"@, z))
            }
        },
    }
}

/// The value at `i`, as the parser's functions see it.
#[verifier::opaque]
spec fn value_goal(bytes: Seq<u8>, i: int, depth: int) -> Parsed<LuaModel> {
    value_at(bytes, i, depth)
}

/// The table at `i`, as the parser's functions see it.
#[verifier::opaque]
spec fn table_goal(bytes: Seq<u8>, i: int, depth: int) -> Parsed<LuaModel> {
    table_at(bytes, i, depth)
}

proof fn lemma_value_goal(bytes: Seq<u8>, i: int, depth: int)
    requires
        0 <= i < bytes.len(),
    ensures
        bytes[i] == 123 ==> value_goal(bytes, i, depth) == table_goal(bytes, i, depth),
        bytes[i] != 123 ==> value_goal(bytes, i, depth) == value_at(bytes, i, depth),
{
    reveal(value_goal);
    reveal(table_goal);
}

proof fn lemma_table_goal(bytes: Seq<u8>, i: int, depth: int)
    requires
        0 <= i < bytes.len(),
        depth < 64,
        bytes[i] == 123,
    ensures
        table_goal(bytes, i, depth) == rest_of(
            bytes,
            i + 1,
            depth + 1,
            Map::empty(),
            Seq::empty(),
            1,
        ),
{
    reveal(table_goal);
    reveal(rest_of);
}

/// The entries of a table from `j` on, as the table loop sees them.
#[verifier::opaque]
spec fn rest_of(
    bytes: Seq<u8>,
    j: int,
    depth: int,
    map: Map<Seq<char>, LuaModel>,
    list: Seq<LuaModel>,
    implicit: int,
) -> Parsed<LuaModel> {
    entries_at(bytes, j, depth, map, list, implicit)
}

/// One entry, as the table loop sees it.
#[verifier::opaque]
spec fn entry_of(
    bytes: Seq<u8>,
    p: int,
    depth: int,
    map: Map<Seq<char>, LuaModel>,
    list: Seq<LuaModel>,
    implicit: int,
) -> Result<(Map<Seq<char>, LuaModel>, Seq<LuaModel>, int, int), (Seq<char>, int)> {
    entry_at(bytes, p, depth, map, list, implicit)
}

/// One turn of the table loop: the table closes, or one entry is read and the
/// loop goes on after its separator.
proof fn lemma_rest_step(
    bytes: Seq<u8>,
    j: int,
    depth: int,
    map: Map<Seq<char>, LuaModel>,
    list: Seq<LuaModel>,
    implicit: int,
)
    requires
        0 <= j <= bytes.len(),
    ensures
        ({
            let p = trivia_end(bytes, j);
            &&& j <= p <= bytes.len()
            &&& p == bytes.len() ==> rest_of(bytes, j, depth, map, list, implicit) == Parsed::<
                LuaModel,
            >::Err(("unterminated table"@, p))
            &&& p < bytes.len() && bytes[p] == 125 ==> rest_of(bytes, j, depth, map, list, implicit)
                == Parsed::Ok((LuaModel::Table(map, list), p + 1))
            &&& p < bytes.len() && bytes[p] != 125 ==> match entry_of(
                bytes,
                p,
                depth,
                map,
                list,
                implicit,
            ) {
                Err(x) => rest_of(bytes, j, depth, map, list, implicit) == Parsed::<LuaModel>::Err(x),
                Ok((map2, list2, implicit2, end)) => {
                    let z = trivia_end(bytes, end);
                    &&& (byte_at(bytes, z, 44) || byte_at(bytes, z, 59)) && j < z + 1 <= bytes.len()
                        ==> rest_of(bytes, j, depth, map, list, implicit) == rest_of(
                        bytes,
                        z + 1,
                        depth,
                        map2,
                        list2,
                        implicit2,
                    )
                    &&& byte_at(bytes, z, 125) && j < z <= bytes.len() ==> rest_of(
                        bytes,
                        j,
                        depth,
                        map,
                        list,
                        implicit,
                    ) == rest_of(bytes, z, depth, map2, list2, implicit2)
                    &&& !(byte_at(bytes, z, 44) || byte_at(bytes, z, 59) || byte_at(bytes, z, 125))
                        ==> rest_of(bytes, j, depth, map, list, implicit) == Parsed::<
                        LuaModel,
                    >::Err(("expected ',' or '}' after a table entry"@, z))
                },
            }
        }),
{
    reveal(rest_of);
    reveal(entry_of);
    lemma_entries_at(bytes, j, depth, map, list, implicit);
    lemma_trivia_end(bytes, j);
}

/// One table entry at `p`, added to `table`; gives where it ends.
fn parse_entry(
    bytes: &[u8],
    p: usize,
    depth: usize,
    table: &mut LuaTable,
    implicit: &mut i64,
) -> (r: Result<usize, Failure>)
    requires
        p < bytes@.len(),
        depth <= MAX_DEPTH,
        bytes@.len() < i64::MAX,
        old(table).array@.len() <= p,
        1 <= *old(implicit) <= p + 1,
    ensures
        match r {
            Ok(end) => entry_of(
                bytes@,
                p as int,
                depth as int,
                map_model(old(table).map),
                list_model(old(table).array@),
                *old(implicit) as int,
            ) == Ok::<(Map<Seq<char>, LuaModel>, Seq<LuaModel>, int, int), (Seq<char>, int)>(
                (
                    map_model(final(table).map),
                    list_model(final(table).array@),
                    *final(implicit) as int,
                    end as int,
                ),
            ) && p < end <= bytes@.len() && final(table).array@.len() <= old(table).array@.len()
                + 1 && *final(implicit) <= *old(implicit) + 1 && 1 <= *final(implicit),
            Err(f) => entry_of(
                bytes@,
                p as int,
                depth as int,
                map_model(old(table).map),
                list_model(old(table).array@),
                *old(implicit) as int,
            ) == Err::<(Map<Seq<char>, LuaModel>, Seq<LuaModel>, int, int), (Seq<char>, int)>(
                failure_view(f),
            ) && f.offset <= bytes@.len(),
        },
    decreases bytes@.len() - p, 2int,
{
    reveal(entry_of);
    reveal(value_goal);
    let n = bytes.len();
    if bytes[p] == 91 {
        let q = trivia(bytes, p + 1);
        let (key, key_end) = match parse_key(bytes, q) {
            Ok(parsed) => parsed,
            Err(f) => return Err(f),
        };
        let r = trivia(bytes, key_end);
        if !(r < n && bytes[r] == 93) {
            return Err(expected_failure(93, bytes, r));
        }
        let s = trivia(bytes, r + 1);
        if !(s < n && bytes[s] == 61) {
            return Err(expected_failure(61, bytes, s));
        }
        let t = trivia(bytes, s + 1);
        let (value, value_end) = match parse_value(bytes, t, depth) {
            Ok(parsed) => parsed,
            Err(f) => return Err(f),
        };
        match insert(table, key, value, value_end) {
            Ok(()) => {},
            Err(f) => return Err(f),
        }
        Ok(value_end)
    } else {
        let (value, value_end) = match parse_value(bytes, p, depth) {
            Ok(parsed) => parsed,
            Err(f) => return Err(f),
        };
        match insert(table, TableKey::Index(*implicit), value, value_end) {
            Ok(()) => {},
            Err(f) => return Err(f),
        }
        *implicit = *implicit + 1;
        Ok(value_end)
    }
}

/// The table whose `{` is at `pos`.
fn parse_table(bytes: &[u8], pos: usize, depth: usize) -> (r: Result<(LuaValue, usize), Failure>)
    requires
        pos <= bytes@.len(),
        depth <= MAX_DEPTH,
        bytes@.len() < i64::MAX,
    ensures
        value_result(r) == table_goal(bytes@, pos as int, depth as int),
        value_settles(r, pos as int, bytes@.len() as int),
    decreases bytes@.len() - pos, 0int,
{
    let n = bytes.len();
    if depth >= MAX_DEPTH {
        proof {
            reveal(table_goal);
        }
        return Err(fail("tables nested deeper than 64", pos));
    }
    if !(pos < n && bytes[pos] == 123) {
        proof {
            reveal(table_goal);
        }
        return Err(expected_failure(123, bytes, pos));
    }
    let ghost goal = table_goal(bytes@, pos as int, depth as int);
    proof {
        lemma_table_goal(bytes@, pos as int, depth as int);
    }
    let inner = depth + 1;
    let mut table = LuaTable { map: StrMap::new(), array: Vec::new() };
    let mut implicit: i64 = 1;
    let mut j = pos + 1;
    assert(map_model(table.map) =~= Map::<Seq<char>, LuaModel>::empty());
    assert(list_model(table.array@) =~= Seq::<LuaModel>::empty());
    loop
        invariant
            pos < j <= n,
            n == bytes@.len(),
            n < i64::MAX,
            inner == depth + 1,
            inner <= MAX_DEPTH,
            1 <= implicit <= j,
            table.array@.len() < j,
            goal == table_goal(bytes@, pos as int, depth as int),
            goal == rest_of(
                bytes@,
                j as int,
                inner as int,
                map_model(table.map),
                list_model(table.array@),
                implicit as int,
            ),
        decreases n - j,
    {
        let p = trivia(bytes, j);
        proof {
            lemma_rest_step(
                bytes@,
                j as int,
                inner as int,
                map_model(table.map),
                list_model(table.array@),
                implicit as int,
            );
        }
        if p >= n {
            return Err(fail("unterminated table", p));
        }
        if bytes[p] == 125 {
            proof {
                lemma_table_model(table);
            }
            return Ok((LuaValue::Table(table), p + 1));
        }
        let end = match parse_entry(bytes, p, inner, &mut table, &mut implicit) {
            Ok(end) => end,
            Err(f) => return Err(f),
        };
        let z = trivia(bytes, end);
        if z < n && (bytes[z] == 44 || bytes[z] == 59) {
            j = z + 1;
        } else if z < n && bytes[z] == 125 {
            j = z;
        } else {
            return Err(fail("expected ',' or '}' after a table entry", z));
        }
    }
}

/// The assignments from `p`, as the top-level loop sees them.
#[verifier::opaque]
spec fn globals_goal(bytes: Seq<u8>, p: int, globals: Map<Seq<char>, LuaModel>) -> Result<
    Map<Seq<char>, LuaModel>,
    (Seq<char>, int),
> {
    globals_at(bytes, p, globals)
}

/// One turn of the top-level loop.
proof fn lemma_globals_step(bytes: Seq<u8>, p: int, globals: Map<Seq<char>, LuaModel>)
    requires
        0 <= p <= bytes.len(),
    ensures
        globals_goal(bytes, p, globals) == if p >= bytes.len() {
            Ok(globals)
        } else {
            let e = name_end(bytes, p);
            if e == p {
                Err(("expected a global name"@, p))
            } else {
                let name = ascii_text(bytes.subrange(p, e));
                let q = trivia_end(bytes, e);
                if !byte_at(bytes, q, 61) {
                    Err((expected_message(61, bytes, q), q))
                } else {
                    let r = trivia_end(bytes, q + 1);
                    match value_goal(bytes, r, 0) {
                        Err(x) => Err(x),
                        Ok((value, end)) => {
                            let s = trivia_end(bytes, end);
                            let next = if byte_at(bytes, s, 59) {
                                trivia_end(bytes, s + 1)
                            } else {
                                s
                            };
                            if p < next <= bytes.len() {
                                globals_goal(bytes, next, globals.insert(name, value))
                            } else {
                                Ok(globals.insert(name, value))
                            }
                        },
                    }
                }
            }
        },
{
    reveal(globals_goal);
    reveal(value_goal);
}

fn name_end_of(bytes: &[u8], i: usize) -> (end: usize)
    requires
        i <= bytes@.len(),
    ensures
        end == name_end(bytes@, i as int),
        i <= end <= bytes@.len(),
{
    let mut j = i;
    while j < bytes.len() && ((48 <= bytes[j] && bytes[j] <= 57) || (65 <= bytes[j] && bytes[j]
        <= 90) || (97 <= bytes[j] && bytes[j] <= 122) || bytes[j] == 95)
        invariant
            i <= j <= bytes@.len(),
            name_end(bytes@, j as int) == name_end(bytes@, i as int),
        decreases bytes@.len() - j,
    {
        j = j + 1;
    }
    j
}

/// A failure, with the line of its offset.
fn located(bytes: &[u8], f: Failure) -> (e: ParseError)
    requires
        f.offset <= bytes@.len(),
        bytes@.len() < usize::MAX,
    ensures
        (e.message@, e.offset as int) == failure_view(f),
        e.line as int == line_of(bytes@, e.offset as int),
{
    let line = line_at(bytes, f.offset);
    ParseError { message: f.message, offset: f.offset, line }
}

/// Parse a SavedVariables file into its top-level assignments.
///
/// WoW writes one `GlobalName = { ... }` per saved variable, so the result is
/// keyed by global name; a later assignment to a name replaces an earlier one.
pub fn parse_saved_variables(input: &str) -> (r: Result<StrMap<LuaValue>, ParseError>)
    requires
        input.spec_bytes().len() < i64::MAX,
        input.spec_bytes().len() < usize::MAX,
    ensures
        match r {
            Ok(globals) => parse_lua(input.spec_bytes()) == Ok::<
                Map<Seq<char>, LuaModel>,
                (Seq<char>, int),
            >(map_model(globals)),
            Err(e) => parse_lua(input.spec_bytes()) == Err::<
                Map<Seq<char>, LuaModel>,
                (Seq<char>, int),
            >((e.message@, e.offset as int)) && e.line as int == line_of(
                input.spec_bytes(),
                e.offset as int,
            ),
        },
{
    let bytes = input.as_bytes();
    let n = bytes.len();
    let mut globals: StrMap<LuaValue> = StrMap::new();
    let mut p = trivia(bytes, 0);
    proof {
        assert(map_model(globals) =~= Map::<Seq<char>, LuaModel>::empty());
        reveal(globals_goal);
    }
    loop
        invariant
            p <= n,
            n == bytes@.len(),
            n < i64::MAX,
            n < usize::MAX,
            bytes@ == input.spec_bytes(),
            parse_lua(bytes@) == globals_goal(bytes@, p as int, map_model(globals)),
        decreases n - p,
    {
        proof {
            lemma_globals_step(bytes@, p as int, map_model(globals));
        }
        if p >= n {
            return Ok(globals);
        }
        let e = name_end_of(bytes, p);
        if e == p {
            return Err(located(bytes, fail("expected a global name", p)));
        }
        let name = ascii_string(bytes, p, e);
        let q = trivia(bytes, e);
        if !(q < n && bytes[q] == 61) {
            return Err(located(bytes, expected_failure(61, bytes, q)));
        }
        let r = trivia(bytes, q + 1);
        let (value, end) = match parse_value(bytes, r, 0) {
            Ok(parsed) => parsed,
            Err(f) => return Err(located(bytes, f)),
        };
        let ghost before = globals;
        let ghost k = name@;
        globals.lemma_sorted();
        globals.insert(name, value);
        proof {
            lemma_map_model_insert(before, globals, k, value);
        }
        let s = trivia(bytes, end);
        p = if s < n && bytes[s] == 59 {
            trivia(bytes, s + 1)
        } else {
            s
        };
    }
}

impl LuaTable {
    /// The value under a name, if the table has one.
    pub fn get(&self, key: &str) -> (value: Option<&LuaValue>)
        ensures
            match value {
                Some(v) => value_of(self.map@, key@) == Some(*v),
                None => !has_key(self.map@, key@),
            },
    {
        self.map.get(key)
    }
}

impl LuaValue {
    pub fn as_str(&self) -> (text: Option<&str>)
        ensures
            match self {
                LuaValue::String(s) => text matches Some(t) && t@ == s@,
                _ => text is None,
            },
    {
        match self {
            LuaValue::String(value) => Some(value.as_str()),
            _ => None,
        }
    }

    /// Numbers arrive as literals because that is what Lua has. Anything with
    /// a fractional part is not an integer, and saying so beats truncating.
    pub fn as_i64(&self) -> (value: Option<i64>)
        ensures
            value == match self {
                LuaValue::Number(text) => integer_i64(text@),
                _ => None,
            },
    {
        match self {
            LuaValue::Number(text) => {
                let text = text.as_str();
                if !text.is_ascii() {
                    proof {
                        if is_number_literal(text@) {
                            crate::literal::lemma_literal_ascii(text@);
                        }
                    }
                    return None;
                }
                let bytes = text.as_bytes();
                proof {
                    vstd::string::is_ascii_spec_bytes(text);
                    assert(ascii_text(bytes@) =~= text@);
                }
                literal_i64(bytes)
            },
            _ => None,
        }
    }

    pub fn as_bool(&self) -> (flag: Option<bool>)
        ensures
            flag == match self {
                LuaValue::Bool(b) => Some(*b),
                _ => None,
            },
    {
        match self {
            LuaValue::Bool(value) => Some(*value),
            _ => None,
        }
    }

    pub fn as_table(&self) -> (table: Option<&LuaTable>)
        ensures
            match self {
                LuaValue::Table(t) => table == Some(t),
                _ => table is None,
            },
    {
        match self {
            LuaValue::Table(table) => Some(table),
            _ => None,
        }
    }

    /// The kind of value, as a message names it.
    pub fn kind(&self) -> (name: &'static str)
        ensures
            name@ == match self {
                LuaValue::String(_) => "string"@,
                LuaValue::Number(_) => "number"@,
                LuaValue::Bool(_) => "boolean"@,
                LuaValue::Table(_) => "table"@,
            },
    {
        match self {
            LuaValue::String(_) => "string",
            LuaValue::Number(_) => "number",
            LuaValue::Bool(_) => "boolean",
            LuaValue::Table(_) => "table",
        }
    }
}

} // verus!
