//! The language's grammar, stated as functions from an input and a position
//! to what is read there and the position after it.
use vstd::prelude::*;
use crate::types::{Ty, canonical};
use crate::value::{Val, infer, pairs_map, map_wf, entries_of, lemma_mapping_unique};
use crate::expr::ExprModel;

verus! {

/// What a parser expected where it failed.
#[derive(Debug, Clone, Copy, PartialEq, Eq, Structural)]
pub enum Expected {
    /// A particular character.
    Char(char),
    /// The start of a value.
    Value,
    /// A variable name.
    Name,
}

/// Why a parse failed. Positions count characters from the start of the input.
#[derive(Debug, Clone, Copy, PartialEq, Eq, Structural)]
pub enum ParseError {
    UnexpectedEndOfInput,
    UnexpectedCharacter { expected: Expected, found: char, position: usize },
    UnknownTypeName { position: usize },
    TrailingInput { position: usize },
    IntegerOverflow { position: usize },
}

/// ASCII whitespace, as `char::is_ascii_whitespace` defines it.
pub open spec fn is_ws(c: char) -> bool {
    c == ' ' || c == '\t' || c == '\n' || c == '\x0C' || c == '\r'
}

pub open spec fn is_digit(c: char) -> bool {
    '0' <= c && c <= '9'
}

pub open spec fn is_alpha(c: char) -> bool {
    ('a' <= c && c <= 'z') || ('A' <= c && c <= 'Z')
}

/// The character at `i` is `c`.
pub open spec fn at(s: Seq<char>, i: int, c: char) -> bool {
    0 <= i < s.len() && s[i] == c
}

/// The input holds `w` at `i`.
pub open spec fn has_word(s: Seq<char>, i: int, w: Seq<char>) -> bool {
    0 <= i && i + w.len() <= s.len() && s.subrange(i, i + w.len()) == w
}

/// The first position at or after `i` that holds no whitespace.
pub open spec fn skip_ws(s: Seq<char>, i: int) -> int
    decreases s.len() - i,
{
    if 0 <= i < s.len() && is_ws(s[i]) {
        skip_ws(s, i + 1)
    } else {
        i
    }
}

/// The end of the run of characters satisfying `alpha` (letters) or digits
/// that starts at `i`.
pub open spec fn run_end(s: Seq<char>, i: int, alpha: bool) -> int
    decreases s.len() - i,
{
    if 0 <= i < s.len() && (if alpha { is_alpha(s[i]) } else { is_digit(s[i]) }) {
        run_end(s, i + 1, alpha)
    } else {
        i
    }
}

/// The first position at or after `i` that holds a double quote, or the end.
pub open spec fn quote_end(s: Seq<char>, i: int) -> int
    decreases s.len() - i,
{
    if 0 <= i < s.len() && s[i] != '"' {
        quote_end(s, i + 1)
    } else {
        i
    }
}

/// Decimal value of a run of digits, read left to right.
pub open spec fn decimal(d: Seq<char>) -> int
    decreases d.len(),
{
    if d.len() == 0 {
        0
    } else {
        decimal(d.subrange(0, d.len() - 1)) * 10 + (d[d.len() - 1] as int - '0' as int)
    }
}

pub proof fn lemma_skip_ws(s: Seq<char>, i: int)
    ensures
        i <= skip_ws(s, i),
        i <= s.len() ==> skip_ws(s, i) <= s.len(),
        0 <= skip_ws(s, i) < s.len() ==> !is_ws(s[skip_ws(s, i)]),
    decreases s.len() - i,
{
    if 0 <= i < s.len() && is_ws(s[i]) {
        lemma_skip_ws(s, i + 1);
    }
}

pub proof fn lemma_run_end(s: Seq<char>, i: int, alpha: bool)
    requires
        0 <= i <= s.len(),
    ensures
        i <= run_end(s, i, alpha) <= s.len(),
        forall|m: int|
            i <= m < run_end(s, i, alpha) ==> (if alpha {
                is_alpha(#[trigger] s[m])
            } else {
                is_digit(s[m])
            }),
    decreases s.len() - i,
{
    if 0 <= i < s.len() && (if alpha { is_alpha(s[i]) } else { is_digit(s[i]) }) {
        lemma_run_end(s, i + 1, alpha);
    }
}

pub proof fn lemma_decimal_prefix(d: Seq<char>, k: int)
    requires
        0 <= k <= d.len(),
        forall|m: int| 0 <= m < d.len() ==> is_digit(#[trigger] d[m]),
    ensures
        0 <= decimal(d.subrange(0, k)) <= decimal(d),
    decreases d.len(),
{
    if k == d.len() {
        assert(d.subrange(0, k) =~= d);
        if d.len() > 0 {
            lemma_decimal_prefix(d.subrange(0, d.len() - 1), 0);
        }
    } else {
        let p = d.subrange(0, d.len() - 1);
        lemma_decimal_prefix(p, k);
        assert(p.subrange(0, k) =~= d.subrange(0, k));
    }
}

/// The error for a missing `c` at `i`.
pub open spec fn missing(s: Seq<char>, i: int, c: char) -> ParseError {
    if i < s.len() {
        ParseError::UnexpectedCharacter { expected: Expected::Char(c), found: s[i], position: i as usize }
    } else {
        ParseError::UnexpectedEndOfInput
    }
}

/// Past the optional `c` at `i`.
pub open spec fn skip_opt(s: Seq<char>, i: int, c: char) -> int {
    if at(s, i, c) {
        i + 1
    } else {
        i
    }
}

pub open spec fn word_true() -> Seq<char> {
    seq!['t', 'r', 'u', 'e']
}

pub open spec fn word_false() -> Seq<char> {
    seq!['f', 'a', 'l', 's', 'e']
}

pub open spec fn word_let() -> Seq<char> {
    seq!['l', 'e', 't']
}

/// A value can start at `i`.
pub open spec fn starts_value(s: Seq<char>, i: int) -> bool {
    ||| (0 <= i < s.len() && (is_digit(s[i]) || s[i] == '"' || s[i] == '[' || s[i] == '{'))
    ||| has_word(s, i, word_true())
    ||| has_word(s, i, word_false())
}

/// The mapping with the given entries, keys in canonical order.
pub open spec fn mapping_of(m: Map<Val, Val>) -> Val {
    choose|v: Val| #[trigger] is_mapping_of(v, m)
}

pub open spec fn is_mapping_of(v: Val, m: Map<Val, Val>) -> bool {
    v matches Val::Mapping(k, w) && map_wf(k, w) && entries_of(k, w) == m
}

pub proof fn lemma_mapping_of(v: Val, m: Map<Val, Val>)
    requires
        is_mapping_of(v, m),
    ensures
        mapping_of(m) == v,
{
    let c = mapping_of(m);
    assert(is_mapping_of(c, m));
    if let Val::Mapping(k1, w1) = v {
        if let Val::Mapping(k2, w2) = c {
            lemma_mapping_unique(k1, w1, k2, w2);
        }
    }
}

/// A value at `i`: an integer, a string, a boolean, a list or a mapping.
pub open spec fn parse_value(s: Seq<char>, i: int) -> Result<(Val, int), ParseError>
    decreases s.len() - i, 0int,
{
    if i < 0 || i >= s.len() {
        Err(ParseError::UnexpectedEndOfInput)
    } else if is_digit(s[i]) {
        let e = run_end(s, i, false);
        let n = decimal(s.subrange(i, e));
        if n > i64::MAX {
            Err(ParseError::IntegerOverflow { position: i as usize })
        } else {
            Ok((Val::Integer(n as i64), e))
        }
    } else if s[i] == '"' {
        let e = quote_end(s, i + 1);
        if e >= s.len() {
            Err(ParseError::UnexpectedEndOfInput)
        } else {
            Ok((Val::String(s.subrange(i + 1, e)), e + 1))
        }
    } else if has_word(s, i, word_true()) {
        Ok((Val::Bool(true), i + 4))
    } else if has_word(s, i, word_false()) {
        Ok((Val::Bool(false), i + 5))
    } else if s[i] == '[' {
        proof {
            lemma_skip_ws(s, i + 1);
        }
        parse_items(s, skip_ws(s, i + 1), Seq::empty())
    } else if s[i] == '{' {
        proof {
            lemma_skip_ws(s, i + 1);
        }
        parse_entries(s, skip_ws(s, i + 1), Seq::empty())
    } else {
        Err(ParseError::UnexpectedCharacter { expected: Expected::Value, found: s[i], position: i as usize })
    }
}

/// The rest of a list from `j`, after the items `acc`: values, each
/// optionally followed by a comma, up to `]`.
pub open spec fn parse_items(s: Seq<char>, j: int, acc: Seq<Val>) -> Result<(Val, int), ParseError>
    decreases s.len() - j, 1int,
{
    if at(s, j, ']') {
        Ok((Val::List(acc), j + 1))
    } else {
        match parse_value(s, j) {
            Err(e) => Err(e),
            Ok((v, k)) => if k <= j || k > s.len() {
                Err(ParseError::UnexpectedEndOfInput)
            } else {
                proof {
                    lemma_skip_ws(s, k);
                    lemma_skip_ws(s, skip_opt(s, skip_ws(s, k), ','));
                }
                parse_items(s, skip_ws(s, skip_opt(s, skip_ws(s, k), ',')), acc.push(v))
            },
        }
    }
}

/// The rest of a mapping from `j`, after the entries `acc`: `key : value`
/// entries, each optionally followed by a comma, up to `}`.
pub open spec fn parse_entries(s: Seq<char>, j: int, acc: Seq<(Val, Val)>) -> Result<
    (Val, int),
    ParseError,
>
    decreases s.len() - j, 1int,
{
    if at(s, j, '}') {
        Ok((mapping_of(pairs_map(acc)), j + 1))
    } else {
        match parse_value(s, j) {
            Err(e) => Err(e),
            Ok((key, k)) => if k <= j || k > s.len() {
                Err(ParseError::UnexpectedEndOfInput)
            } else {
                proof {
                    lemma_skip_ws(s, k);
                }
                let c = skip_ws(s, k);
                if !at(s, c, ':') {
                    Err(missing(s, c, ':'))
                } else {
                    proof {
                        lemma_skip_ws(s, c + 1);
                    }
                    match parse_value(s, skip_ws(s, c + 1)) {
                        Err(e) => Err(e),
                        Ok((val, m)) => if m <= j || m > s.len() {
                            Err(ParseError::UnexpectedEndOfInput)
                        } else {
                            proof {
                                lemma_skip_ws(s, m);
                                lemma_skip_ws(s, skip_opt(s, skip_ws(s, m), ','));
                            }
                            parse_entries(
                                s,
                                skip_ws(s, skip_opt(s, skip_ws(s, m), ',')),
                                acc.push((key, val)),
                            )
                        },
                    }
                }
            },
        }
    }
}


pub open spec fn word_i64() -> Seq<char> {
    seq!['i', '6', '4']
}

pub open spec fn word_bool() -> Seq<char> {
    seq!['b', 'o', 'o', 'l']
}

pub open spec fn word_str() -> Seq<char> {
    seq!['s', 't', 'r']
}

pub open spec fn word_list() -> Seq<char> {
    seq!['l', 'i', 's', 't']
}

pub open spec fn word_map() -> Seq<char> {
    seq!['m', 'a', 'p']
}

/// A union that must start with an atom at `j`: no letter there is an
/// unknown type name, the end of input is an error of its own.
pub open spec fn parse_members(s: Seq<char>, j: int) -> Result<(Set<Ty>, int), ParseError>
    decreases s.len() - j, 2int,
{
    if j < 0 || j >= s.len() {
        Err(ParseError::UnexpectedEndOfInput)
    } else if !is_alpha(s[j]) {
        Err(ParseError::UnknownTypeName { position: j as usize })
    } else {
        parse_union(s, j, Set::empty())
    }
}

/// The rest of a union of type atoms from `j`, joined by `|`, added to `acc`. It ends
/// where no `|` follows an atom (after the whitespace behind it), or where no
/// letter starts another atom.
pub open spec fn parse_union(s: Seq<char>, j: int, acc: Set<Ty>) -> Result<(Set<Ty>, int), ParseError>
    decreases s.len() - j, 1int,
{
    if !(0 <= j < s.len() && is_alpha(s[j])) {
        Ok((acc, j))
    } else {
        match parse_atom(s, j) {
            Err(e) => Err(e),
            Ok((t, k)) => if k <= j || k > s.len() {
                Err(ParseError::UnexpectedEndOfInput)
            } else {
                proof {
                    lemma_skip_ws(s, k);
                    lemma_skip_ws(s, skip_ws(s, k) + 1);
                }
                let b = skip_ws(s, k);
                if at(s, b, '|') {
                    parse_union(s, skip_ws(s, b + 1), acc.insert(t))
                } else {
                    Ok((acc.insert(t), b))
                }
            },
        }
    }
}

/// A type atom at `j`: `i64`, `bool`, `str`, `list[union]` or
/// `map[union, union]`, and the whitespace after a bracketed one.
pub open spec fn parse_atom(s: Seq<char>, j: int) -> Result<(Ty, int), ParseError>
    decreases s.len() - j, 0int,
{
    if j < 0 || j >= s.len() {
        Err(ParseError::UnexpectedEndOfInput)
    } else if has_word(s, j, word_i64()) {
        Ok((Ty::Integer, j + 3))
    } else if has_word(s, j, word_bool()) {
        Ok((Ty::Bool, j + 4))
    } else if has_word(s, j, word_str()) {
        Ok((Ty::String, j + 3))
    } else if has_word(s, j, word_list()) {
        proof {
            lemma_skip_ws(s, j + 4);
        }
        let a = skip_ws(s, j + 4);
        if !at(s, a, '[') {
            Err(missing(s, a, '['))
        } else {
            proof {
                lemma_skip_ws(s, a + 1);
            }
            match parse_members(s, skip_ws(s, a + 1)) {
                Err(e) => Err(e),
                Ok((members, c)) => {
                    let d = skip_ws(s, c);
                    if !at(s, d, ']') {
                        Err(missing(s, d, ']'))
                    } else {
                        Ok((Ty::List(canonical(members)), skip_ws(s, d + 1)))
                    }
                },
            }
        }
    } else if has_word(s, j, word_map()) {
        proof {
            lemma_skip_ws(s, j + 3);
        }
        let a = skip_ws(s, j + 3);
        if !at(s, a, '[') {
            Err(missing(s, a, '['))
        } else {
            proof {
                lemma_skip_ws(s, a + 1);
            }
            match parse_members(s, skip_ws(s, a + 1)) {
                Err(e) => Err(e),
                Ok((keys, c)) => {
                    let d = skip_ws(s, c);
                    if !at(s, d, ',') {
                        Err(missing(s, d, ','))
                    } else {
                        proof {
                            lemma_skip_ws(s, d + 1);
                        }
                        if skip_ws(s, d + 1) <= j {
                            Err(ParseError::UnexpectedEndOfInput)
                        } else {
                            match parse_members(s, skip_ws(s, d + 1)) {
                                Err(e) => Err(e),
                                Ok((vals, f)) => {
                                    let g = skip_ws(s, f);
                                    if !at(s, g, ']') {
                                        Err(missing(s, g, ']'))
                                    } else {
                                        Ok((
                                            Ty::Mapping(canonical(keys), canonical(vals)),
                                            skip_ws(s, g + 1),
                                        ))
                                    }
                                },
                            }
                        }
                    }
                },
            }
        }
    } else {
        Err(ParseError::UnknownTypeName { position: j as usize })
    }
}

/// An optional annotation at `k`: `:` and a union, in canonical form; none
/// stands for the empty list.
pub open spec fn parse_anno(s: Seq<char>, k: int) -> Result<(Seq<Ty>, int), ParseError> {
    if at(s, k, ':') {
        match parse_members(s, skip_ws(s, k + 1)) {
            Err(e) => Err(e),
            Ok((members, p)) => Ok((canonical(members), p)),
        }
    } else {
        Ok((Seq::<Ty>::empty(), k))
    }
}

/// A declaration at `i` (which holds `let`): the name, an optional `:` and
/// type union, `=`, the value and an optional `;`. Without an annotation the
/// declared types are the single inferred type of the value; an annotation is
/// kept as written, in canonical form, whether or not the value has one of
/// its types.
pub open spec fn parse_var(s: Seq<char>, i: int) -> Result<(ExprModel, int), ParseError> {
    let j = skip_ws(s, i + 3);
    let e = run_end(s, j, true);
    let k = skip_ws(s, e);
    if e == j {
        if j < s.len() {
            Err(ParseError::UnexpectedCharacter { expected: Expected::Name, found: s[j], position: j as usize })
        } else {
            Err(ParseError::UnexpectedEndOfInput)
        }
    } else {
        let anno = parse_anno(s, k);
        match anno {
            Err(e) => Err(e),
            Ok((types, p)) => if !at(s, p, '=') {
                Err(missing(s, p, '='))
            } else {
                match parse_value(s, skip_ws(s, p + 1)) {
                    Err(e) => Err(e),
                    Ok((v, q)) => Ok((
                        ExprModel::Var(
                            s.subrange(j, e),
                            if types.len() == 0 { seq![infer(v)] } else { types },
                            Box::new(ExprModel::Value(v)),
                        ),
                        skip_opt(s, skip_ws(s, q), ';'),
                    )),
                }
            },
        }
    }
}

/// The statements from `i` (past whitespace) to the end, after those in
/// `acc`: declarations and bare values, each followed by an optional `;`.
/// Input that is neither, before the end, is an error.
pub open spec fn parse_program(s: Seq<char>, i: int, acc: Seq<ExprModel>) -> Result<Seq<ExprModel>, ParseError>
    decreases s.len() - i,
{
    let step = if has_word(s, i, word_let()) {
        parse_var(s, i)
    } else if starts_value(s, i) {
        match parse_value(s, i) {
            Err(e) => Err(e),
            Ok((v, k)) => Ok((ExprModel::Value(v), k)),
        }
    } else {
        Err(ParseError::UnexpectedEndOfInput)
    };
    if !has_word(s, i, word_let()) && !starts_value(s, i) {
        if i == s.len() {
            Ok(acc)
        } else {
            Err(ParseError::TrailingInput { position: i as usize })
        }
    } else {
        match step {
            Err(e) => Err(e),
            Ok((x, k)) => if k <= i || k > s.len() {
                Err(ParseError::UnexpectedEndOfInput)
            } else {
                proof {
                    lemma_skip_ws(s, k);
                    lemma_skip_ws(s, skip_opt(s, skip_ws(s, k), ';'));
                }
                parse_program(s, skip_ws(s, skip_opt(s, skip_ws(s, k), ';')), acc.push(x))
            },
        }
    }
}

/// The whole input: whitespace, then statements to the end.
pub open spec fn parse_input(s: Seq<char>) -> Result<Seq<ExprModel>, ParseError> {
    parse_program(s, skip_ws(s, 0), Seq::empty())
}

} // verus!
