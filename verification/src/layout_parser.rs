//! Parser for the text of a layout.
//!
//! ```text
//! layout ::= chain
//! chain  ::= tile | tile "-" chain | double "=" "(" group ")"
//! group  ::= chain | chain "," chain | chain "," chain "," chain
//! tile   ::= number "|" number
//! ```
//!
//! A chain after a dash, and each chain of a group, starts with the value
//! that the tile before it ends with. Only a double is followed by a group,
//! and a double is followed by nothing else. Whitespace is ignored between
//! the tokens.

use crate::layout_form::{make_tile, tile_of};
use crate::layout_text::TileTree;
use crate::rules::MAX_PIPS;
use crate::text::{append_decimal, decimal, digit_value, is_digit};
use crate::tile::Tile;
use crate::tile_tree::{appended, node_position, tree_append, tree_new, tree_nodes, tree_root_id};
use ego_tree::{NodeId, Tree};
use vstd::prelude::*;
use vstd::string::{StrSliceExecFns, StringExecFns};

verus! {

/// Error returned when the text of a layout cannot be parsed.
#[derive(Debug)]
pub struct ParseError {
    /// A description of what went wrong during parsing.
    pub message: String,
    /// The position in the text, counted in characters from 0, at which the error occurred.
    pub position: usize,
}

impl ParseError {
    /// The text of the error.
    pub open spec fn text(&self) -> Seq<char> {
        "Parse error at position "@ + decimal(self.position as nat) + ": "@ + self.message@
    }

    /// Returns the text of the error, with its position and its message.
    pub fn to_string(&self) -> (text: String)
        ensures
            text@ == self.text(),
    {
        let mut out = String::from_str("Parse error at position ");
        append_decimal(&mut out, self.position);
        out.append(": ");
        out.append(self.message.as_str());
        out
    }
}

/// What is wrong with a text.
pub enum FaultKind {
    /// No tile of the form `x|y` stands where one is expected.
    ExpectedTile,
    /// A number is larger than the largest value of a tile.
    NumberOutOfRange { digits: Seq<char> },
    /// The first number of a tile is not the value that the tile before it ends with.
    InvalidConnection { from: u8, to: u8, expected: u8 },
    /// A double is followed by a dash.
    DoubleFollowedByDash { tile: Tile },
    /// A tile that is no double is followed by an equals sign.
    NonDoubleFollowedByEquals { tile: Tile },
    /// An equals sign is not followed by the parenthesis that starts a group.
    ExpectedGroupStart,
    /// A chain of a group is followed neither by a comma nor by the
    /// parenthesis that ends the group.
    ExpectedSeparator,
    /// The third chain of a group is followed by a comma.
    TooManyChains,
    /// Something follows the layout.
    UnexpectedCharacters,
}

/// What is wrong with a text, and where.
pub struct Fault {
    pub kind: FaultKind,
    pub position: int,
}

impl FaultKind {
    /// The message that describes the fault.
    pub open spec fn message(self) -> Seq<char> {
        match self {
            FaultKind::ExpectedTile => "Expected tile in format 'x|y' where x,y are 0-"@ + decimal(
                MAX_PIPS as nat,
            ),
            FaultKind::NumberOutOfRange { digits } => "Number '"@ + digits + "' is out of range (0-"@
                + decimal(MAX_PIPS as nat) + ")"@,
            FaultKind::InvalidConnection { from, to, expected } => "Invalid connection: tile "@
                + decimal(from as nat) + "|"@ + decimal(to as nat) + " first number ("@ + decimal(
                from as nat,
            ) + ") must match the preceding end ("@ + decimal(expected as nat) + ")"@,
            FaultKind::DoubleFollowedByDash { tile } => tile.text()
                + " followed by '-'. Doubles must be followed by ="@,
            FaultKind::NonDoubleFollowedByEquals { tile } => tile.text()
                + " followed by '='. Only doubles can be followed by ="@,
            FaultKind::ExpectedGroupStart => "Expected '(' to start group"@,
            FaultKind::ExpectedSeparator => "Expected ',' or ')' in group"@,
            FaultKind::TooManyChains => "Expected ')' after the third chain of a group"@,
            FaultKind::UnexpectedCharacters => "Unexpected characters after layout"@,
        }
    }
}

/// The error describes the fault.
pub open spec fn describes(error: ParseError, fault: Fault) -> bool {
    error.position == fault.position && error.message@ == fault.kind.message()
}

/// The character is white space.
pub open spec fn is_space(c: char) -> bool {
    let code = c as u32;
    ||| 0x09 <= code <= 0x0d
    ||| code == 0x20
    ||| code == 0x85
    ||| code == 0xa0
    ||| code == 0x1680
    ||| 0x2000 <= code <= 0x200a
    ||| code == 0x2028
    ||| code == 0x2029
    ||| code == 0x202f
    ||| code == 0x205f
    ||| code == 0x3000
}

/// The first position from `pos` on that holds no white space.
pub open spec fn skip_spaces(s: Seq<char>, pos: int) -> int
    decreases s.len() - pos,
{
    if 0 <= pos < s.len() && is_space(s[pos]) {
        skip_spaces(s, pos + 1)
    } else {
        pos
    }
}

/// The first position from `pos` on that holds no digit.
pub open spec fn digits_end(s: Seq<char>, pos: int) -> int
    decreases s.len() - pos,
{
    if 0 <= pos < s.len() && is_digit(s[pos]) {
        digits_end(s, pos + 1)
    } else {
        pos
    }
}

/// The number that the digits from `from` up to `to` write.
pub open spec fn number_value(s: Seq<char>, from: int, to: int) -> int
    decreases to - from,
{
    if to <= from {
        0
    } else {
        number_value(s, from, to - 1) * 10 + digit_value(s[to - 1])
    }
}

/// The character at the position is the given one.
pub open spec fn next_is(s: Seq<char>, pos: int, c: char) -> bool {
    0 <= pos < s.len() && s[pos] == c
}

/// Where the parts of a tile's text stand: digits, a bar, digits, with or
/// without white space around the bar.
pub struct TileToken {
    pub first_end: int,
    pub second_start: int,
    pub end: int,
}

/// The tile's text that starts at the position, if one does.
pub open spec fn tile_token(s: Seq<char>, pos: int) -> Option<TileToken> {
    let first_end = digits_end(s, pos);
    let bar = skip_spaces(s, first_end);
    let second_start = skip_spaces(s, bar + 1);
    let end = digits_end(s, second_start);
    if first_end > pos && next_is(s, bar, '|') && end > second_start {
        Some(TileToken { first_end, second_start, end })
    } else {
        None
    }
}

/// What parsing a tile yields: its two numbers as written and where its text
/// ends, or a fault.
pub enum TileParsed {
    Tile { from: u8, to: u8, end: int },
    Fault { fault: Fault },
}

/// Parses the tile that is expected at the position, after white space. Its
/// first number has to be the value `expected`, where there is one.
pub open spec fn tile_parse(s: Seq<char>, pos: int, expected: Option<u8>) -> TileParsed {
    let start = skip_spaces(s, pos);
    match tile_token(s, start) {
        None => TileParsed::Fault { fault: Fault { kind: FaultKind::ExpectedTile, position: start } },
        Some(token) => {
            let from = number_value(s, start, token.first_end);
            let to = number_value(s, token.second_start, token.end);
            if from > MAX_PIPS {
                TileParsed::Fault {
                    fault: Fault {
                        kind: FaultKind::NumberOutOfRange { digits: s.subrange(start, token.first_end) },
                        position: start,
                    },
                }
            } else if to > MAX_PIPS {
                TileParsed::Fault {
                    fault: Fault {
                        kind: FaultKind::NumberOutOfRange {
                            digits: s.subrange(token.second_start, token.end),
                        },
                        position: start,
                    },
                }
            } else if expected.is_some() && from != expected.unwrap() {
                TileParsed::Fault {
                    fault: Fault {
                        kind: FaultKind::InvalidConnection {
                            from: from as u8,
                            to: to as u8,
                            expected: expected.unwrap(),
                        },
                        position: start,
                    },
                }
            } else {
                TileParsed::Tile { from: from as u8, to: to as u8, end: token.end }
            }
        },
    }
}

/// What parsing chains yields: the trees of the chains and where their text
/// ends, or a fault.
pub enum Parsed {
    Trees { trees: Seq<TileTree>, end: int },
    Fault { fault: Fault },
}

/// Parses a chain: a tile and what follows it. The result holds one tree.
pub open spec fn chain_parse(s: Seq<char>, pos: int, expected: Option<u8>) -> Parsed
    decreases s.len() - pos, 2int,
{
    match tile_parse(s, pos, expected) {
        TileParsed::Fault { fault } => Parsed::Fault { fault },
        TileParsed::Tile { from, to, end } => {
            if pos < end <= s.len() {
                match rest_parse(s, end, from, to) {
                    Parsed::Fault { fault } => Parsed::Fault { fault },
                    Parsed::Trees { trees, end } => Parsed::Trees {
                        trees: seq![TileTree { tile: tile_of((from, to)), children: trees }],
                        end,
                    },
                }
            } else {
                Parsed::Fault { fault: Fault { kind: FaultKind::ExpectedTile, position: pos } }
            }
        },
    }
}

/// Parses what follows a tile whose text ends at the position: the trees of
/// its children. A double is followed by nothing or by an equals sign and a
/// group; another tile is followed by nothing or by a dash and a chain.
pub open spec fn rest_parse(s: Seq<char>, pos: int, from: u8, to: u8) -> Parsed
    decreases s.len() - pos, 1int,
{
    let next = skip_spaces(s, pos);
    let tile = tile_of((from, to));
    if next < pos {
        Parsed::Fault { fault: Fault { kind: FaultKind::ExpectedTile, position: pos } }
    } else if from == to {
        if next_is(s, next, '-') {
            Parsed::Fault {
                fault: Fault { kind: FaultKind::DoubleFollowedByDash { tile }, position: next },
            }
        } else if next_is(s, next, '=') {
            let start = skip_spaces(s, next + 1);
            if !next_is(s, start, '(') || start < next {
                Parsed::Fault { fault: Fault { kind: FaultKind::ExpectedGroupStart, position: start } }
            } else {
                group_parse(s, start + 1, to, Seq::empty())
            }
        } else {
            Parsed::Trees { trees: Seq::empty(), end: next }
        }
    } else {
        if next_is(s, next, '=') {
            Parsed::Fault {
                fault: Fault { kind: FaultKind::NonDoubleFollowedByEquals { tile }, position: next },
            }
        } else if next_is(s, next, '-') {
            chain_parse(s, next + 1, Some(to))
        } else {
            Parsed::Trees { trees: Seq::empty(), end: next }
        }
    }
}

/// Parses the chains of a group from the position on, up to the parenthesis
/// that ends the group. `parsed` holds the trees of the group's chains
/// before the position.
pub open spec fn group_parse(s: Seq<char>, pos: int, expected: u8, parsed: Seq<TileTree>) -> Parsed
    decreases s.len() - pos, 3int,
{
    match chain_parse(s, pos, Some(expected)) {
        Parsed::Fault { fault } => Parsed::Fault { fault },
        Parsed::Trees { trees, end } => {
            let next = skip_spaces(s, end);
            let all = parsed + trees;
            if next_is(s, next, ',') {
                if all.len() >= 3 {
                    Parsed::Fault { fault: Fault { kind: FaultKind::TooManyChains, position: next } }
                } else if next >= pos {
                    group_parse(s, next + 1, expected, all)
                } else {
                    Parsed::Fault { fault: Fault { kind: FaultKind::TooManyChains, position: next } }
                }
            } else if next_is(s, next, ')') {
                Parsed::Trees { trees: all, end: next + 1 }
            } else {
                Parsed::Fault { fault: Fault { kind: FaultKind::ExpectedSeparator, position: next } }
            }
        },
    }
}

/// Parses a layout: one chain, which nothing but white space may follow.
pub open spec fn layout_parse(s: Seq<char>) -> Parsed {
    match chain_parse(s, 0, None) {
        Parsed::Fault { fault } => Parsed::Fault { fault },
        Parsed::Trees { trees, end } => {
            let next = skip_spaces(s, end);
            if next < s.len() {
                Parsed::Fault {
                    fault: Fault { kind: FaultKind::UnexpectedCharacters, position: next },
                }
            } else {
                Parsed::Trees { trees, end: next }
            }
        },
    }
}

/// From a position in the text on, the white space ends within the text.
pub proof fn lemma_skip_spaces(s: Seq<char>, pos: int)
    requires
        0 <= pos <= s.len(),
    ensures
        pos <= skip_spaces(s, pos) <= s.len(),
        skip_spaces(s, pos) < s.len() ==> !is_space(s[skip_spaces(s, pos)]),
        forall|i: int| pos <= i < skip_spaces(s, pos) ==> is_space(s[i]),
    decreases s.len() - pos,
{
    if pos < s.len() && is_space(s[pos]) {
        lemma_skip_spaces(s, pos + 1);
    }
}

/// From a position in the text on, the digits end within the text.
pub proof fn lemma_digits_end(s: Seq<char>, pos: int)
    requires
        0 <= pos <= s.len(),
    ensures
        pos <= digits_end(s, pos) <= s.len(),
        digits_end(s, pos) < s.len() ==> !is_digit(s[digits_end(s, pos)]),
        forall|i: int| pos <= i < digits_end(s, pos) ==> is_digit(s[i]),
    decreases s.len() - pos,
{
    if pos < s.len() && is_digit(s[pos]) {
        lemma_digits_end(s, pos + 1);
    }
}

/// Returns the characters of a text.
pub fn chars_of(input: &str) -> (chars: Vec<char>)
    ensures
        chars@ == input@,
{
    let count = input.unicode_len();
    let mut chars: Vec<char> = Vec::new();
    let mut i: usize = 0;
    while i < count
        invariant
            i <= count == input@.len(),
            chars@ == input@.take(i as int),
        decreases count - i,
    {
        chars.push(input.get_char(i));
        assert(input@.take(i as int).push(input@[i as int]) =~= input@.take(i + 1));
        i = i + 1;
    }
    assert(input@.take(i as int) =~= input@);
    chars
}

/// Returns `true` if the character is white space.
pub fn is_space_char(c: char) -> (space: bool)
    ensures
        space == is_space(c),
{
    let code = c as u32;
    (0x09 <= code && code <= 0x0d) || code == 0x20 || code == 0x85 || code == 0xa0 || code == 0x1680
        || (0x2000 <= code && code <= 0x200a) || code == 0x2028 || code == 0x2029 || code == 0x202f
        || code == 0x205f || code == 0x3000
}

/// Returns the first position from `pos` on that holds no white space.
pub fn skip_whitespace(chars: &Vec<char>, pos: usize) -> (next: usize)
    requires
        pos <= chars@.len(),
    ensures
        next == skip_spaces(chars@, pos as int),
        pos <= next <= chars@.len(),
{
    let mut next = pos;
    while next < chars.len() && is_space_char(chars[next])
        invariant
            pos <= next <= chars@.len(),
            skip_spaces(chars@, pos as int) == skip_spaces(chars@, next as int),
        decreases chars@.len() - next,
    {
        next = next + 1;
    }
    next
}

/// Returns the first position from `pos` on that holds no digit.
pub fn scan_digits(chars: &Vec<char>, pos: usize) -> (next: usize)
    requires
        pos <= chars@.len(),
    ensures
        next == digits_end(chars@, pos as int),
        pos <= next <= chars@.len(),
{
    let mut next = pos;
    while next < chars.len() && '0' <= chars[next] && chars[next] <= '9'
        invariant
            pos <= next <= chars@.len(),
            digits_end(chars@, pos as int) == digits_end(chars@, next as int),
        decreases chars@.len() - next,
    {
        next = next + 1;
    }
    next
}

/// Returns `true` if the given character stands at the position.
pub fn at(chars: &Vec<char>, pos: usize, c: char) -> (found: bool)
    ensures
        found == next_is(chars@, pos as int, c),
        found ==> pos < chars@.len() <= usize::MAX,
{
    pos < chars.len() && chars[pos] == c
}

/// Makes the error for a place at which no tile stands.
fn error_expected_tile(position: usize) -> (error: ParseError)
    ensures
        describes(error, Fault { kind: FaultKind::ExpectedTile, position: position as int }),
{
    let mut message = String::from_str("Expected tile in format 'x|y' where x,y are 0-");
    append_decimal(&mut message, MAX_PIPS as usize);
    ParseError { message, position }
}

/// Makes the error for a number that is out of range.
fn error_number(digits: &str, position: usize) -> (error: ParseError)
    ensures
        describes(
            error,
            Fault { kind: FaultKind::NumberOutOfRange { digits: digits@ }, position: position as int },
        ),
{
    let mut message = String::from_str("Number '");
    message.append(digits);
    message.append("' is out of range (0-");
    append_decimal(&mut message, MAX_PIPS as usize);
    message.append(")");
    ParseError { message, position }
}

/// Makes the error for a tile that does not start with the expected value.
fn error_connection(from: u8, to: u8, expected: u8, position: usize) -> (error: ParseError)
    ensures
        describes(
            error,
            Fault {
                kind: FaultKind::InvalidConnection { from, to, expected },
                position: position as int,
            },
        ),
{
    let mut message = String::from_str("Invalid connection: tile ");
    append_decimal(&mut message, from as usize);
    message.append("|");
    append_decimal(&mut message, to as usize);
    message.append(" first number (");
    append_decimal(&mut message, from as usize);
    message.append(") must match the preceding end (");
    append_decimal(&mut message, expected as usize);
    message.append(")");
    ParseError { message, position }
}

/// Makes the error for a double that is followed by a dash.
fn error_double_dash(tile: Tile, position: usize) -> (error: ParseError)
    ensures
        describes(
            error,
            Fault { kind: FaultKind::DoubleFollowedByDash { tile }, position: position as int },
        ),
{
    let mut message = tile.to_string();
    message.append(" followed by '-'. Doubles must be followed by =");
    ParseError { message, position }
}

/// Makes the error for a tile that is no double and is followed by an equals sign.
fn error_equals(tile: Tile, position: usize) -> (error: ParseError)
    ensures
        describes(
            error,
            Fault { kind: FaultKind::NonDoubleFollowedByEquals { tile }, position: position as int },
        ),
{
    let mut message = tile.to_string();
    message.append(" followed by '='. Only doubles can be followed by =");
    ParseError { message, position }
}

/// Makes the error for a fault without details.
fn error_plain(kind: FaultKind, text: &str, position: usize) -> (error: ParseError)
    requires
        text@ == kind.message(),
    ensures
        describes(error, Fault { kind, position: position as int }),
{
    ParseError { message: String::from_str(text), position }
}

/// Parses the number that the digits from `from` up to `to` write.
fn parse_number(input: &str, chars: &Vec<char>, from: usize, to: usize, position: usize) -> (result:
    Result<u8, ParseError>)
    requires
        input@ == chars@,
        from <= to <= chars@.len(),
        forall|i: int| from <= i < to ==> is_digit(chars@[i]),
    ensures
        match result {
            Ok(value) => value == number_value(chars@, from as int, to as int) && value <= MAX_PIPS,
            Err(error) => number_value(chars@, from as int, to as int) > MAX_PIPS && describes(
                error,
                Fault {
                    kind: FaultKind::NumberOutOfRange { digits: chars@.subrange(from as int, to as int) },
                    position: position as int,
                },
            ),
        },
{
    let mut value: u8 = 0;
    let mut large = false;
    let mut i: usize = from;
    while i < to
        invariant
            from <= i <= to <= chars@.len(),
            forall|k: int| from <= k < to ==> is_digit(chars@[k]),
            !large ==> value == number_value(chars@, from as int, i as int) && value <= MAX_PIPS,
            large ==> number_value(chars@, from as int, i as int) > MAX_PIPS,
        decreases to - i,
    {
        let c = chars[i];
        assert(is_digit(c));
        let digit: u8 = ((c as u32) - ('0' as u32)) as u8;
        assert(digit == digit_value(c));
        if !large {
            if value > 2 || value * 10 + digit > MAX_PIPS {
                large = true;
            } else {
                value = value * 10 + digit;
            }
        }
        i = i + 1;
    }
    if large {
        Err(error_number(input.substring_char(from, to), position))
    } else {
        Ok(value)
    }
}

/// Parses the tile that is expected at the position, after white space:
/// returns its two numbers as written, and where its text ends.
fn parse_tile(input: &str, chars: &Vec<char>, pos: usize, expected: Option<u8>) -> (result: Result<
    (u8, u8, usize),
    ParseError,
>)
    requires
        input@ == chars@,
        pos <= chars@.len(),
    ensures
        match result {
            Ok((from, to, end)) => tile_parse(chars@, pos as int, expected) == (TileParsed::Tile {
                from,
                to,
                end: end as int,
            }) && pos < end <= chars@.len() && from <= MAX_PIPS && to <= MAX_PIPS,
            Err(error) => match tile_parse(chars@, pos as int, expected) {
                TileParsed::Fault { fault } => describes(error, fault),
                _ => false,
            },
        },
{
    let start = skip_whitespace(chars, pos);
    let first_end = scan_digits(chars, start);
    let bar = skip_whitespace(chars, first_end);
    if first_end == start || !at(chars, bar, '|') {
        return Err(error_expected_tile(start));
    }
    let second_start = skip_whitespace(chars, bar + 1);
    let end = scan_digits(chars, second_start);
    if end == second_start {
        return Err(error_expected_tile(start));
    }
    proof {
        lemma_digits_end(chars@, start as int);
        lemma_digits_end(chars@, second_start as int);
    }
    let from = match parse_number(input, chars, start, first_end, start) {
        Ok(from) => from,
        Err(error) => {
            return Err(error);
        },
    };
    let to = match parse_number(input, chars, second_start, end, start) {
        Ok(to) => to,
        Err(error) => {
            return Err(error);
        },
    };
    // Validate the connection if there is a tile before this one
    match expected {
        Some(expected) => {
            if from != expected {
                return Err(error_connection(from, to, expected, start));
            }
        },
        None => {},
    }
    Ok((from, to, end))
}

/// The nodes of a tree.
pub type Arena = Seq<(Tile, Option<int>, Seq<int>)>;

/// The nodes of a tree after a tree of tiles was added below the node at the
/// position `parent`: its root as the last child of that node, then the trees
/// of its children below its root, one after the other.
pub open spec fn graft(arena: Arena, parent: int, tree: TileTree) -> Arena
    decreases tree, 1int,
{
    graft_all(
        appended(arena, parent, tree.tile),
        arena.len() as int,
        tree,
        tree.children.len() as int,
    )
}

/// The nodes of a tree after the first `upto` children of a tree of tiles
/// were added below the node at the position `at`, one after the other.
pub open spec fn graft_all(arena: Arena, at: int, tree: TileTree, upto: int) -> Arena
    decreases tree, 0int, upto,
{
    if 0 < upto <= tree.children.len() {
        graft(graft_all(arena, at, tree, upto - 1), at, tree.children[upto - 1])
    } else {
        arena
    }
}

/// The nodes of a tree after trees of tiles were added below the node at the
/// position `at`, one after the other.
pub open spec fn graft_trees(arena: Arena, at: int, trees: Seq<TileTree>) -> Arena {
    graft_all(arena, at, TileTree { tile: Tile { ordinal: 0 }, children: trees }, trees.len() as int)
}

/// The nodes of the tree that holds a tree of tiles: the root first, every
/// other node after its parent and after the nodes below its earlier siblings.
pub open spec fn plant(tree: TileTree) -> Arena {
    graft_trees(seq![(tree.tile, None::<int>, Seq::<int>::empty())], 0, tree.children)
}

/// Adding the first children of a tree goes by those children alone.
pub proof fn lemma_graft_all_prefix(arena: Arena, at: int, first: TileTree, second: TileTree, upto: int)
    requires
        0 <= upto <= first.children.len(),
        upto <= second.children.len(),
        forall|k: int| 0 <= k < upto ==> first.children[k] == second.children[k],
    ensures
        graft_all(arena, at, first, upto) == graft_all(arena, at, second, upto),
    decreases upto,
{
    if upto > 0 {
        lemma_graft_all_prefix(arena, at, first, second, upto - 1);
    }
}

/// Adding trees and then one more is adding them all.
pub proof fn lemma_graft_trees_push(arena: Arena, at: int, trees: Seq<TileTree>, tree: TileTree)
    ensures
        graft_trees(arena, at, trees.push(tree)) == graft(graft_trees(arena, at, trees), at, tree),
        graft_trees(arena, at, Seq::<TileTree>::empty()) == arena,
{
    let origin = Tile { ordinal: 0 };
    lemma_graft_all_prefix(
        arena,
        at,
        TileTree { tile: origin, children: trees.push(tree) },
        TileTree { tile: origin, children: trees },
        trees.len() as int,
    );
}

/// Adding a tree of tiles adds nodes, and adding trees takes none away.
pub proof fn lemma_graft_grows(arena: Arena, parent: int, tree: TileTree)
    requires
        0 <= parent < arena.len(),
    ensures
        graft(arena, parent, tree).len() > arena.len(),
    decreases tree, 1int,
{
    assert(appended(arena, parent, tree.tile).len() == arena.len() + 1);
    lemma_graft_all_grows(
        appended(arena, parent, tree.tile),
        arena.len() as int,
        tree,
        tree.children.len() as int,
    );
}

/// Adding the first children of a tree takes no nodes away.
pub proof fn lemma_graft_all_grows(arena: Arena, at: int, tree: TileTree, upto: int)
    requires
        0 <= at < arena.len(),
    ensures
        graft_all(arena, at, tree, upto).len() >= arena.len(),
    decreases tree, 0int, upto,
{
    if 0 < upto <= tree.children.len() {
        lemma_graft_all_grows(arena, at, tree, upto - 1);
        lemma_graft_grows(graft_all(arena, at, tree, upto - 1), at, tree.children[upto - 1]);
    }
}

/// Parses a chain and adds its tree below the node `parent`. Returns where
/// the text of the chain ends.
fn parse_chain(
    input: &str,
    chars: &Vec<char>,
    pos: usize,
    expected: Option<u8>,
    tree: &mut Tree<Tile>,
    parent: NodeId,
) -> (result: Result<usize, ParseError>)
    requires
        input@ == chars@,
        pos <= chars@.len(),
        0 <= node_position(parent) < tree_nodes(*old(tree)).len(),
    ensures
        match (result, chain_parse(chars@, pos as int, expected)) {
            (Ok(end), Parsed::Trees { trees, end: spec_end }) => {
                &&& end == spec_end
                &&& end <= chars@.len()
                &&& trees.len() == 1
                &&& tree_nodes(*final(tree)) == graft(
                    tree_nodes(*old(tree)),
                    node_position(parent),
                    trees[0],
                )
            },
            (Err(error), Parsed::Fault { fault }) => describes(error, fault),
            _ => false,
        },
    decreases chars@.len() - pos, 2int,
{
    // Parse the first tile in the chain
    let (from, to, end) = match parse_tile(input, chars, pos, expected) {
        Ok(parsed) => parsed,
        Err(error) => {
            return Err(error);
        },
    };
    let tile = make_tile((from, to));
    let ghost arena = tree_nodes(*tree);
    let id = tree_append(tree, parent, tile);
    assert(appended(arena, node_position(parent), tile).len() == arena.len() + 1);
    let result = parse_rest(input, chars, end, from, to, tree, id);
    proof {
        match rest_parse(chars@, end as int, from, to) {
            Parsed::Trees { trees, end } => {
                lemma_graft_all_prefix(
                    appended(arena, node_position(parent), tile),
                    arena.len() as int,
                    TileTree { tile: Tile { ordinal: 0 }, children: trees },
                    TileTree { tile, children: trees },
                    trees.len() as int,
                );
            },
            _ => {},
        }
    }
    result
}

/// Parses what follows a tile whose text ends at the position, and adds the
/// trees of the tile's children below the tile's node. Returns where the
/// text ends.
fn parse_rest(
    input: &str,
    chars: &Vec<char>,
    pos: usize,
    from: u8,
    to: u8,
    tree: &mut Tree<Tile>,
    node: NodeId,
) -> (result: Result<usize, ParseError>)
    requires
        input@ == chars@,
        pos <= chars@.len(),
        from <= MAX_PIPS,
        to <= MAX_PIPS,
        0 <= node_position(node) < tree_nodes(*old(tree)).len(),
    ensures
        match (result, rest_parse(chars@, pos as int, from, to)) {
            (Ok(end), Parsed::Trees { trees, end: spec_end }) => {
                &&& end == spec_end
                &&& end <= chars@.len()
                &&& tree_nodes(*final(tree)) == graft_trees(
                    tree_nodes(*old(tree)),
                    node_position(node),
                    trees,
                )
            },
            (Err(error), Parsed::Fault { fault }) => describes(error, fault),
            _ => false,
        },
    decreases chars@.len() - pos, 1int,
{
    let ghost arena = tree_nodes(*tree);
    let next = skip_whitespace(chars, pos);
    proof {
        lemma_graft_trees_push(arena, node_position(node), Seq::empty(), arbitrary());
    }
    if from == to {
        // Double cannot be followed by '-'
        if at(chars, next, '-') {
            return Err(error_double_dash(make_tile((from, to)), next));
        }
        // Check for '=' indicating a group follows
        if at(chars, next, '=') {
            let start = skip_whitespace(chars, next + 1);
            if !at(chars, start, '(') {
                return Err(
                    error_plain(FaultKind::ExpectedGroupStart, "Expected '(' to start group", start),
                );
            }
            return parse_group(input, chars, start + 1, to, tree, node);
        }
        Ok(next)
    } else {
        // Normal tiles cannot be followed by '='
        if at(chars, next, '=') {
            return Err(error_equals(make_tile((from, to)), next));
        }
        // Check for chain continuation with '-'
        if at(chars, next, '-') {
            let result = parse_chain(input, chars, next + 1, Some(to), tree, node);
            proof {
                match chain_parse(chars@, next + 1, Some(to)) {
                    Parsed::Trees { trees, end } => {
                        if result.is_ok() {
                            lemma_graft_trees_push(arena, node_position(node), Seq::empty(), trees[0]);
                            assert(Seq::<TileTree>::empty().push(trees[0]) =~= trees);
                        }
                    },
                    _ => {},
                }
            }
            return result;
        }
        Ok(next)
    }
}

/// Parses the chains of a group from the position on, up to the parenthesis
/// that ends the group, and adds their trees below the node of the double
/// that the group follows. Returns where the text of the group ends.
fn parse_group(
    input: &str,
    chars: &Vec<char>,
    pos: usize,
    expected: u8,
    tree: &mut Tree<Tile>,
    node: NodeId,
) -> (result: Result<usize, ParseError>)
    requires
        input@ == chars@,
        pos <= chars@.len(),
        0 <= node_position(node) < tree_nodes(*old(tree)).len(),
    ensures
        match (result, group_parse(chars@, pos as int, expected, Seq::empty())) {
            (Ok(end), Parsed::Trees { trees, end: spec_end }) => {
                &&& end == spec_end
                &&& end <= chars@.len()
                &&& tree_nodes(*final(tree)) == graft_trees(
                    tree_nodes(*old(tree)),
                    node_position(node),
                    trees,
                )
            },
            (Err(error), Parsed::Fault { fault }) => describes(error, fault),
            _ => false,
        },
    decreases chars@.len() - pos, 3int,
{
    let ghost arena = tree_nodes(*tree);
    let ghost parsed: Seq<TileTree> = Seq::empty();
    let mut count: usize = 0;
    let mut current = pos;
    proof {
        lemma_graft_trees_push(arena, node_position(node), Seq::empty(), arbitrary());
    }
    loop
        invariant
            input@ == chars@,
            pos <= current <= chars@.len(),
            0 <= node_position(node) < arena.len(),
            arena == tree_nodes(*old(tree)),
            count == parsed.len(),
            count < 3,
            group_parse(chars@, pos as int, expected, Seq::empty()) == group_parse(
                chars@,
                current as int,
                expected,
                parsed,
            ),
            tree_nodes(*tree) == graft_trees(arena, node_position(node), parsed),
        decreases chars@.len() - current,
    {
        proof {
            lemma_graft_all_grows(
                arena,
                node_position(node),
                TileTree { tile: Tile { ordinal: 0 }, children: parsed },
                parsed.len() as int,
            );
        }
        let end = match parse_chain(input, chars, current, Some(expected), tree, node) {
            Ok(end) => end,
            Err(error) => {
                return Err(error);
            },
        };
        let ghost before = parsed;
        proof {
            match chain_parse(chars@, current as int, Some(expected)) {
                Parsed::Trees { trees, end } => {
                    lemma_graft_trees_push(arena, node_position(node), parsed, trees[0]);
                    assert(parsed + trees =~= parsed.push(trees[0]));
                    parsed = parsed.push(trees[0]);
                },
                _ => {},
            }
            lemma_chain_advances(chars@, current as int, Some(expected));
        }
        count = count + 1;
        let next = skip_whitespace(chars, end);
        proof {
            let outcome = group_parse(chars@, current as int, expected, before);
            if next_is(chars@, next as int, ',') {
                if parsed.len() >= 3 {
                    assert(outcome == (Parsed::Fault {
                        fault: Fault { kind: FaultKind::TooManyChains, position: next as int },
                    }));
                } else {
                    assert(outcome == group_parse(chars@, next + 1, expected, parsed));
                }
            } else if next_is(chars@, next as int, ')') {
                assert(outcome == (Parsed::Trees { trees: parsed, end: next + 1 }));
            } else {
                assert(outcome == (Parsed::Fault {
                    fault: Fault { kind: FaultKind::ExpectedSeparator, position: next as int },
                }));
            }
        }
        // If ',' is found, continue to next chain; if ')' found, end group; else error
        if at(chars, next, ',') {
            if count >= 3 {
                return Err(
                    error_plain(
                        FaultKind::TooManyChains,
                        "Expected ')' after the third chain of a group",
                        next,
                    ),
                );
            }
            current = next + 1;
        } else if at(chars, next, ')') {
            return Ok(next + 1);
        } else {
            return Err(
                error_plain(FaultKind::ExpectedSeparator, "Expected ',' or ')' in group", next),
            );
        }
    }
}

/// The text of a chain ends after the position at which it starts.
pub proof fn lemma_chain_advances(s: Seq<char>, pos: int, expected: Option<u8>)
    requires
        0 <= pos <= s.len(),
    ensures
        match chain_parse(s, pos, expected) {
            Parsed::Trees { trees, end } => pos < end <= s.len() && trees.len() == 1,
            _ => true,
        },
    decreases s.len() - pos, 2int,
{
    match tile_parse(s, pos, expected) {
        TileParsed::Tile { from, to, end } => {
            if pos < end <= s.len() {
                lemma_rest_advances(s, end, from, to);
            }
        },
        _ => {},
    }
}

/// The text that follows a tile ends at or after the position at which it starts.
pub proof fn lemma_rest_advances(s: Seq<char>, pos: int, from: u8, to: u8)
    requires
        0 <= pos <= s.len(),
    ensures
        match rest_parse(s, pos, from, to) {
            Parsed::Trees { trees, end } => pos <= end <= s.len(),
            _ => true,
        },
    decreases s.len() - pos, 1int,
{
    let next = skip_spaces(s, pos);
    lemma_skip_spaces(s, pos);
    if from == to {
        if !next_is(s, next, '-') && next_is(s, next, '=') {
            let start = skip_spaces(s, next + 1);
            lemma_skip_spaces(s, next + 1);
            if next_is(s, start, '(') {
                lemma_group_advances(s, start + 1, to, Seq::empty());
            }
        }
    } else {
        if !next_is(s, next, '=') && next_is(s, next, '-') {
            lemma_chain_advances(s, next + 1, Some(to));
        }
    }
}

/// The text of a group ends after the position at which its chains start.
pub proof fn lemma_group_advances(s: Seq<char>, pos: int, expected: u8, parsed: Seq<TileTree>)
    requires
        0 <= pos <= s.len(),
    ensures
        match group_parse(s, pos, expected, parsed) {
            Parsed::Trees { trees, end } => pos < end <= s.len(),
            _ => true,
        },
    decreases s.len() - pos, 3int,
{
    lemma_chain_advances(s, pos, Some(expected));
    match chain_parse(s, pos, Some(expected)) {
        Parsed::Trees { trees, end } => {
            let next = skip_spaces(s, end);
            lemma_skip_spaces(s, end);
            if next_is(s, next, ',') && (parsed + trees).len() < 3 {
                lemma_group_advances(s, next + 1, expected, parsed + trees);
            }
        },
        _ => {},
    }
}

/// Parses the text of a layout into a tree of tiles. Tiles may be written
/// with their values in either order.
pub fn parse(input: &str) -> (result: Result<Tree<Tile>, ParseError>)
    ensures
        match (result, layout_parse(input@)) {
            (Ok(tree), Parsed::Trees { trees, end }) => trees.len() == 1 && tree_nodes(tree) == plant(
                trees[0],
            ),
            (Err(error), Parsed::Fault { fault }) => describes(error, fault),
            _ => false,
        },
{
    let chars = chars_of(input);
    let (from, to, end) = match parse_tile(input, &chars, 0, None) {
        Ok(parsed) => parsed,
        Err(error) => {
            return Err(error);
        },
    };
    let mut tree = tree_new(make_tile((from, to)));
    let root = tree_root_id(&tree);
    let end = match parse_rest(input, &chars, end, from, to, &mut tree, root) {
        Ok(end) => end,
        Err(error) => {
            return Err(error);
        },
    };
    let next = skip_whitespace(&chars, end);
    if next < chars.len() {
        return Err(
            error_plain(FaultKind::UnexpectedCharacters, "Unexpected characters after layout", next),
        );
    }
    Ok(tree)
}

} // verus!
