//! The recursive-descent parser. Each routine reads at a position of the
//! input and is proved to return what the matching function of
//! [`crate::grammar`] states.
use vstd::prelude::*;
use crate::grammar::{
    Expected, ParseError, at, has_word, skip_ws, skip_opt, missing, starts_value, run_end, quote_end,
    decimal, is_digit, is_alpha, word_true, word_false, word_let, word_i64, word_bool, word_str,
    word_list, word_map, parse_value, parse_items, parse_entries, parse_union, parse_members, parse_atom,
    parse_var, parse_anno, parse_program, lemma_run_end,
    lemma_decimal_prefix, lemma_mapping_of,
};
use crate::types::{Ty, Type, canonical, tys_sorted, types_view, insert_member, lemma_canonical, lemma_types_view};
use crate::value::{Val, Value, ValueMap, infer, pairs_map, push_char};
use crate::expr::{Expr, ExprModel, exprs_view};

verus! {

/// A parse of a value read at some position, as the grammar states it.
pub open spec fn value_result(r: Result<(Value, usize), ParseError>) -> Result<(Val, int), ParseError> {
    match r {
        Ok((v, k)) => Ok((v@, k as int)),
        Err(e) => Err(e),
    }
}

/// The position after a successful read lies past the start, within the input.
pub open spec fn advances<T>(r: Result<(T, usize), ParseError>, i: int, len: int) -> bool {
    r matches Ok((_, k)) ==> i < k <= len
}

/// ASCII whitespace.
fn whitespace(c: char) -> (r: bool)
    ensures
        r == crate::grammar::is_ws(c),
{
    c == ' ' || c == '\t' || c == '\n' || c == '\x0C' || c == '\r'
}

fn digit(c: char) -> (r: bool)
    ensures
        r == is_digit(c),
{
    '0' <= c && c <= '9'
}

fn letter(c: char) -> (r: bool)
    ensures
        r == is_alpha(c),
{
    ('a' <= c && c <= 'z') || ('A' <= c && c <= 'Z')
}

/// A parse of a declaration or statement read at some position.
pub open spec fn expr_result(r: Result<(Expr, usize), ParseError>) -> Result<(ExprModel, int), ParseError> {
    match r {
        Ok((x, k)) => Ok((x@, k as int)),
        Err(e) => Err(e),
    }
}

/// A parse of a whole input.
pub open spec fn program_result(r: Result<Vec<Expr>, ParseError>) -> Result<Seq<ExprModel>, ParseError> {
    match r {
        Ok(v) => Ok(exprs_view(v@)),
        Err(e) => Err(e),
    }
}

/// Reads one input text, once.
#[derive(Debug)]
pub struct Parser {
    body: Vec<char>,
    index: usize,
}

impl Parser {
    /// The input text.
    pub closed spec fn input(&self) -> Seq<char> {
        self.body@
    }

    /// How far the input has been read.
    pub closed spec fn position(&self) -> int {
        self.index as int
    }

    /// Whether the position lies within the input; every parser keeps this.
    pub closed spec fn wf(&self) -> bool {
        self.index <= self.body.len()
    }

    /// A parser at the start of `body`.
    pub fn new(body: &str) -> (r: Parser)
        ensures
            r.input() == body@,
            r.position() == 0,
            r.wf(),
    {
        Parser { body: crate::value::chars_of(body), index: 0 }
    }

    /// Past the whitespace at `i`.
    fn skip_whitespace(&self, i: usize) -> (r: usize)
        requires
            i <= self.body.len(),
        ensures
            r == skip_ws(self.body@, i as int),
            i <= r <= self.body.len(),
    {
        let mut j = i;
        while j < self.body.len() && whitespace(self.body[j])
            invariant
                i <= j <= self.body.len(),
                skip_ws(self.body@, j as int) == skip_ws(self.body@, i as int),
            decreases self.body.len() - j,
        {
            j = j + 1;
        }
        j
    }

    /// Whether `c` stands at `i`.
    fn is_char(&self, i: usize, c: char) -> (r: bool)
        ensures
            r == at(self.body@, i as int, c),
    {
        i < self.body.len() && self.body[i] == c
    }

    /// Past the optional `c` at `i`.
    fn consume_char(&self, i: usize, c: char) -> (r: usize)
        requires
            i <= self.body.len(),
        ensures
            r == skip_opt(self.body@, i as int, c),
            i <= r <= self.body.len(),
    {
        if self.is_char(i, c) {
            i + 1
        } else {
            i
        }
    }

    /// Past the `c` that must stand at `i`.
    fn expect_char(&self, i: usize, c: char) -> (r: Result<usize, ParseError>)
        requires
            i <= self.body.len(),
        ensures
            match r {
                Ok(k) => at(self.body@, i as int, c) && k == i + 1,
                Err(e) => !at(self.body@, i as int, c) && e == missing(self.body@, i as int, c),
            },
    {
        if self.is_char(i, c) {
            Ok(i + 1)
        } else if i < self.body.len() {
            Err(ParseError::UnexpectedCharacter { expected: Expected::Char(c), found: self.body[i], position: i })
        } else {
            Err(ParseError::UnexpectedEndOfInput)
        }
    }

    /// Whether the input holds `w` at `i`.
    fn peek(&self, i: usize, w: &[char]) -> (r: bool)
        ensures
            r == has_word(self.body@, i as int, w@),
    {
        if i > self.body.len() || w.len() > self.body.len() - i {
            return false;
        }
        let mut k: usize = 0;
        while k < w.len()
            invariant
                i + w.len() <= self.body.len(),
                k <= w.len(),
                forall|m: int| 0 <= m < k ==> self.body@[i + m] == w@[m],
            decreases w.len() - k,
        {
            if self.body[i + k] != w[k] {
                proof {
                    assert(self.body@.subrange(i as int, i + w@.len())[k as int] != w@[k as int]);
                }
                return false;
            }
            k = k + 1;
        }
        proof {
            assert(self.body@.subrange(i as int, i + w@.len()) =~= w@);
        }
        true
    }

    fn is_true(&self, i: usize) -> (r: bool)
        ensures
            r == has_word(self.body@, i as int, word_true()),
    {
        let w = ['t', 'r', 'u', 'e'];
        proof {
            assert(w@ =~= word_true());
        }
        self.peek(i, &w)
    }

    fn is_false(&self, i: usize) -> (r: bool)
        ensures
            r == has_word(self.body@, i as int, word_false()),
    {
        let w = ['f', 'a', 'l', 's', 'e'];
        proof {
            assert(w@ =~= word_false());
        }
        self.peek(i, &w)
    }

    fn is_var_dec(&self, i: usize) -> (r: bool)
        ensures
            r == has_word(self.body@, i as int, word_let()),
    {
        let w = ['l', 'e', 't'];
        proof {
            assert(w@ =~= word_let());
        }
        self.peek(i, &w)
    }

    /// Whether a value starts at `i`.
    fn is_value(&self, i: usize) -> (r: bool)
        ensures
            r == starts_value(self.body@, i as int),
    {
        let c = i < self.body.len() && (digit(self.body[i]) || self.body[i] == '"'
            || self.body[i] == '[' || self.body[i] == '{');
        c || self.is_true(i) || self.is_false(i)
    }

    /// The decimal integer at `i`.
    fn consume_integer(&self, i: usize) -> (r: Result<(Value, usize), ParseError>)
        requires
            i < self.body.len(),
            is_digit(self.body@[i as int]),
        ensures
            value_result(r) == parse_value(self.body@, i as int),
            advances(r, i as int, self.body.len() as int),
    {
        let ghost b = self.body@;
        let ghost e = run_end(b, i as int, false);
        proof {
            lemma_run_end(b, i as int, false);
        }
        let mut j = i;
        let mut acc: i64 = 0;
        while j < self.body.len() && digit(self.body[j])
            invariant
                b == self.body@,
                i <= j <= self.body.len(),
                e == run_end(b, i as int, false),
                run_end(b, j as int, false) == e,
                j <= e,
                i <= e <= b.len(),
                forall|m: int| i <= m < e ==> is_digit(#[trigger] b[m]),
                acc as int == decimal(b.subrange(i as int, j as int)),
            decreases self.body.len() - j,
        {
            let d = (self.body[j] as u32 - '0' as u32) as i64;
            proof {
                let p = b.subrange(i as int, j + 1);
                assert(p.subrange(0, p.len() - 1) =~= b.subrange(i as int, j as int));
                assert(decimal(p) == acc * 10 + d);
                lemma_run_end(b, j + 1, false);
                assert(run_end(b, j as int, false) == run_end(b, j + 1, false));
                let full = b.subrange(i as int, e);
                assert forall|m: int| 0 <= m < full.len() implies is_digit(#[trigger] full[m]) by {
                    assert(full[m] == b[i + m]);
                }
                lemma_decimal_prefix(b.subrange(i as int, e), j + 1 - i);
                assert(b.subrange(i as int, e).subrange(0, j + 1 - i) =~= p);
            }
            match acc.checked_mul(10) {
                None => {
                    return Err(ParseError::IntegerOverflow { position: i });
                },
                Some(x) => match x.checked_add(d) {
                    None => {
                        return Err(ParseError::IntegerOverflow { position: i });
                    },
                    Some(y) => {
                        acc = y;
                    },
                },
            }
            j = j + 1;
        }
        Ok((Value::Integer(acc), j))
    }

    /// The string at `i` (which holds its opening quote), up to the next quote.
    fn consume_string(&self, i: usize) -> (r: Result<(Value, usize), ParseError>)
        requires
            i < self.body.len(),
            self.body@[i as int] == '"',
        ensures
            value_result(r) == parse_value(self.body@, i as int),
            advances(r, i as int, self.body.len() as int),
    {
        let ghost b = self.body@;
        let mut s = String::new();
        let mut j = i + 1;
        while j < self.body.len() && self.body[j] != '"'
            invariant
                b == self.body@,
                i + 1 <= j <= self.body.len(),
                quote_end(b, j as int) == quote_end(b, i + 1),
                s@ == b.subrange(i + 1, j as int),
            decreases self.body.len() - j,
        {
            push_char(&mut s, self.body[j]);
            proof {
                assert(s@ =~= b.subrange(i + 1, j + 1));
            }
            j = j + 1;
        }
        if j >= self.body.len() {
            Err(ParseError::UnexpectedEndOfInput)
        } else {
            Ok((Value::String(s), j + 1))
        }
    }

    /// The value at `i`.
    fn consume_value(&self, i: usize) -> (r: Result<(Value, usize), ParseError>)
        requires
            i <= self.body.len(),
        ensures
            value_result(r) == parse_value(self.body@, i as int),
            advances(r, i as int, self.body.len() as int),
        decreases self.body.len() - i, 0int,
    {
        if i >= self.body.len() {
            return Err(ParseError::UnexpectedEndOfInput);
        }
        let c = self.body[i];
        if digit(c) {
            self.consume_integer(i)
        } else if c == '"' {
            self.consume_string(i)
        } else if self.is_true(i) {
            Ok((Value::Bool(true), i + 4))
        } else if self.is_false(i) {
            Ok((Value::Bool(false), i + 5))
        } else if c == '[' {
            let j = self.skip_whitespace(i + 1);
            self.consume_list(j)
        } else if c == '{' {
            let j = self.skip_whitespace(i + 1);
            self.consume_map(j)
        } else {
            Err(ParseError::UnexpectedCharacter { expected: Expected::Value, found: c, position: i })
        }
    }

    /// The rest of a list from `j0`, past its `[` and the whitespace after it.
    fn consume_list(&self, j0: usize) -> (r: Result<(Value, usize), ParseError>)
        requires
            0 < j0 <= self.body.len(),
        ensures
            value_result(r) == parse_items(self.body@, j0 as int, Seq::empty()),
            advances(r, j0 - 1, self.body.len() as int),
        decreases self.body.len() - j0, 2int,
    {
        let ghost b = self.body@;
        let mut items: Vec<Value> = Vec::new();
        let mut j = j0;
        proof {
            assert(crate::value::values_view(items@) =~= Seq::<Val>::empty());
        }
        loop
            invariant
                b == self.body@,
                j0 <= j <= self.body.len(),
                parse_items(b, j0 as int, Seq::empty()) == parse_items(
                    b,
                    j as int,
                    crate::value::values_view(items@),
                ),
            decreases self.body.len() - j,
        {
            if self.is_char(j, ']') {
                return Ok((Value::List(items), j + 1));
            }
            match self.consume_value(j) {
                Err(e) => {
                    return Err(e);
                },
                Ok((v, k)) => {
                    let k2 = self.skip_whitespace(k);
                    let k3 = self.consume_char(k2, ',');
                    let k4 = self.skip_whitespace(k3);
                    let ghost before = items@;
                    items.push(v);
                    proof {
                        assert(items@.subrange(0, items@.len() - 1) =~= before);
                    }
                    j = k4;
                },
            }
        }
    }

    /// The rest of a mapping from `j0`, past its `{` and the whitespace after it.
    fn consume_map(&self, j0: usize) -> (r: Result<(Value, usize), ParseError>)
        requires
            0 < j0 <= self.body.len(),
        ensures
            value_result(r) == parse_entries(self.body@, j0 as int, Seq::empty()),
            advances(r, j0 - 1, self.body.len() as int),
        decreases self.body.len() - j0, 2int,
    {
        let ghost b = self.body@;
        let mut map = ValueMap::new();
        let ghost mut acc: Seq<(Val, Val)> = Seq::empty();
        let mut j = j0;
        proof {
            assert(map.entries() =~= pairs_map(acc));
        }
        loop
            invariant
                b == self.body@,
                j0 <= j <= self.body.len(),
                map.wf(),
                map.entries() == pairs_map(acc),
                parse_entries(b, j0 as int, Seq::empty()) == parse_entries(b, j as int, acc),
            decreases self.body.len() - j,
        {
            if self.is_char(j, '}') {
                let r = Value::Mapping(map);
                proof {
                    lemma_mapping_of(r@, pairs_map(acc));
                }
                return Ok((r, j + 1));
            }
            match self.consume_map_entry(j) {
                Err(e) => {
                    return Err(e);
                },
                Ok((key, val, k)) => {
                    let k3 = self.consume_char(k, ',');
                    let k4 = self.skip_whitespace(k3);
                    proof {
                        let p = acc.push((key@, val@));
                        assert(p.subrange(0, p.len() - 1) =~= acc);
                        acc = p;
                    }
                    map.insert(key, val);
                    j = k4;
                },
            }
        }
    }

    /// One `key : value` entry at `j`, and the whitespace after it.
    fn consume_map_entry(&self, j: usize) -> (r: Result<(Value, Value, usize), ParseError>)
        requires
            j <= self.body.len(),
            !at(self.body@, j as int, '}'),
        ensures
            match r {
                Ok((key, val, k)) => j < k <= self.body.len() && (forall|acc: Seq<(Val, Val)>|
                    #[trigger] parse_entries(self.body@, j as int, acc) == parse_entries(
                        self.body@,
                        skip_ws(self.body@, skip_opt(self.body@, k as int, ',')),
                        acc.push((key@, val@)),
                    )),
                Err(e) => forall|acc: Seq<(Val, Val)>|
                    #[trigger] parse_entries(self.body@, j as int, acc) == Err::<(Val, int), ParseError>(e),
            },
        decreases self.body.len() - j, 1int,
    {
        let ghost b = self.body@;
        match self.consume_value(j) {
            Err(e) => {
                proof {
                    assert forall|acc: Seq<(Val, Val)>| #[trigger] parse_entries(b, j as int, acc)
                        == Err::<(Val, int), ParseError>(e) by {}
                }
                Err(e)
            },
            Ok((key, k)) => {
                let c = self.skip_whitespace(k);
                match self.expect_char(c, ':') {
                    Err(e) => {
                        proof {
                            assert forall|acc: Seq<(Val, Val)>| #[trigger] parse_entries(b, j as int, acc)
                                == Err::<(Val, int), ParseError>(e) by {}
                        }
                        Err(e)
                    },
                    Ok(c1) => {
                        let c2 = self.skip_whitespace(c1);
                        match self.consume_value(c2) {
                            Err(e) => {
                                proof {
                                    assert forall|acc: Seq<(Val, Val)>| #[trigger] parse_entries(
                                        b,
                                        j as int,
                                        acc,
                                    ) == Err::<(Val, int), ParseError>(e) by {}
                                }
                                Err(e)
                            },
                            Ok((val, m)) => {
                                let m2 = self.skip_whitespace(m);
                                proof {
                                    assert forall|acc: Seq<(Val, Val)>| #[trigger] parse_entries(
                                        b,
                                        j as int,
                                        acc,
                                    ) == parse_entries(
                                        b,
                                        skip_ws(b, skip_opt(b, m2 as int, ',')),
                                        acc.push((key@, val@)),
                                    ) by {}
                                }
                                Ok((key, val, m2))
                            },
                        }
                    },
                }
            },
        }
    }

    fn is_int_type(&self, i: usize) -> (r: bool)
        ensures
            r == has_word(self.body@, i as int, word_i64()),
    {
        let w = ['i', '6', '4'];
        proof {
            assert(w@ =~= word_i64());
        }
        self.peek(i, &w)
    }

    fn is_bool_type(&self, i: usize) -> (r: bool)
        ensures
            r == has_word(self.body@, i as int, word_bool()),
    {
        let w = ['b', 'o', 'o', 'l'];
        proof {
            assert(w@ =~= word_bool());
        }
        self.peek(i, &w)
    }

    fn is_str_type(&self, i: usize) -> (r: bool)
        ensures
            r == has_word(self.body@, i as int, word_str()),
    {
        let w = ['s', 't', 'r'];
        proof {
            assert(w@ =~= word_str());
        }
        self.peek(i, &w)
    }

    fn is_list_type(&self, i: usize) -> (r: bool)
        ensures
            r == has_word(self.body@, i as int, word_list()),
    {
        let w = ['l', 'i', 's', 't'];
        proof {
            assert(w@ =~= word_list());
        }
        self.peek(i, &w)
    }

    fn is_map_type(&self, i: usize) -> (r: bool)
        ensures
            r == has_word(self.body@, i as int, word_map()),
    {
        let w = ['m', 'a', 'p'];
        proof {
            assert(w@ =~= word_map());
        }
        self.peek(i, &w)
    }

    /// A union of one or more type atoms from `j0`, in canonical form.
    fn consume_type_union(&self, j0: usize) -> (r: Result<(Vec<Type>, usize), ParseError>)
        requires
            j0 <= self.body.len(),
        ensures
            match r {
                Ok((v, p)) => tys_sorted(types_view(v@)) && j0 <= p <= self.body.len()
                    && parse_members(self.body@, j0 as int) == Ok::<(Set<Ty>, int), ParseError>(
                    (types_view(v@).to_set(), p as int),
                ),
                Err(e) => parse_members(self.body@, j0 as int) == Err::<(Set<Ty>, int), ParseError>(e),
            },
        decreases self.body.len() - j0, 2int,
    {
        if j0 >= self.body.len() {
            return Err(ParseError::UnexpectedEndOfInput);
        }
        if !letter(self.body[j0]) {
            return Err(ParseError::UnknownTypeName { position: j0 });
        }
        let ghost b = self.body@;
        let mut members: Vec<Type> = Vec::new();
        let mut j = j0;
        proof {
            assert(types_view(members@) =~= Seq::<Ty>::empty());
            assert(types_view(members@).to_set() =~= Set::<Ty>::empty());
        }
        loop
            invariant
                b == self.body@,
                j0 <= j <= self.body.len(),
                tys_sorted(types_view(members@)),
                parse_members(b, j0 as int) == parse_union(
                    b,
                    j as int,
                    types_view(members@).to_set(),
                ),
            decreases self.body.len() - j,
        {
            if !(j < self.body.len() && letter(self.body[j])) {
                return Ok((members, j));
            }
            match self.consume_type_atom(j) {
                Err(e) => {
                    return Err(e);
                },
                Ok((t, k)) => {
                    let k2 = self.skip_whitespace(k);
                    insert_member(&mut members, t);
                    if self.is_char(k2, '|') {
                        j = self.skip_whitespace(k2 + 1);
                    } else {
                        return Ok((members, k2));
                    }
                },
            }
        }
    }

    /// The type atom at `j`.
    fn consume_type_atom(&self, j: usize) -> (r: Result<(Type, usize), ParseError>)
        requires
            j <= self.body.len(),
        ensures
            match r {
                Ok((t, k)) => j < k <= self.body.len() && parse_atom(self.body@, j as int) == Ok::<
                    (Ty, int),
                    ParseError,
                >((t@, k as int)),
                Err(e) => parse_atom(self.body@, j as int) == Err::<(Ty, int), ParseError>(e),
            },
        decreases self.body.len() - j, 1int,
    {
        if j >= self.body.len() {
            Err(ParseError::UnexpectedEndOfInput)
        } else if self.is_int_type(j) {
            Ok((Type::Integer, j + 3))
        } else if self.is_bool_type(j) {
            Ok((Type::Bool, j + 4))
        } else if self.is_str_type(j) {
            Ok((Type::String, j + 3))
        } else if self.is_list_type(j) {
            self.consume_list_type(j)
        } else if self.is_map_type(j) {
            self.consume_map_type(j)
        } else {
            Err(ParseError::UnknownTypeName { position: j })
        }
    }

    /// `list[union]` at `j`.
    fn consume_list_type(&self, j: usize) -> (r: Result<(Type, usize), ParseError>)
        requires
            j < self.body.len(),
            has_word(self.body@, j as int, word_list()),
            !has_word(self.body@, j as int, word_i64()),
            !has_word(self.body@, j as int, word_bool()),
            !has_word(self.body@, j as int, word_str()),
        ensures
            match r {
                Ok((t, k)) => j < k <= self.body.len() && parse_atom(self.body@, j as int) == Ok::<
                    (Ty, int),
                    ParseError,
                >((t@, k as int)),
                Err(e) => parse_atom(self.body@, j as int) == Err::<(Ty, int), ParseError>(e),
            },
        decreases self.body.len() - j, 0int,
    {
        let a = self.skip_whitespace(j + 4);
        let a1 = match self.expect_char(a, '[') {
            Err(e) => {
                return Err(e);
            },
            Ok(a1) => a1,
        };
        let b0 = self.skip_whitespace(a1);
        let (members, c) = match self.consume_type_union(b0) {
            Err(e) => {
                return Err(e);
            },
            Ok(x) => x,
        };
        let d = self.skip_whitespace(c);
        let d1 = match self.expect_char(d, ']') {
            Err(e) => {
                return Err(e);
            },
            Ok(d1) => d1,
        };
        let e = self.skip_whitespace(d1);
        proof {
            lemma_canonical(types_view(members@));
        }
        Ok((Type::List(members), e))
    }

    /// `map[union, union]` at `j`.
    fn consume_map_type(&self, j: usize) -> (r: Result<(Type, usize), ParseError>)
        requires
            j < self.body.len(),
            has_word(self.body@, j as int, word_map()),
            !has_word(self.body@, j as int, word_i64()),
            !has_word(self.body@, j as int, word_bool()),
            !has_word(self.body@, j as int, word_str()),
            !has_word(self.body@, j as int, word_list()),
        ensures
            match r {
                Ok((t, k)) => j < k <= self.body.len() && parse_atom(self.body@, j as int) == Ok::<
                    (Ty, int),
                    ParseError,
                >((t@, k as int)),
                Err(e) => parse_atom(self.body@, j as int) == Err::<(Ty, int), ParseError>(e),
            },
        decreases self.body.len() - j, 0int,
    {
        let a = self.skip_whitespace(j + 3);
        let a1 = match self.expect_char(a, '[') {
            Err(e) => {
                return Err(e);
            },
            Ok(a1) => a1,
        };
        let b0 = self.skip_whitespace(a1);
        let (keys, c) = match self.consume_type_union(b0) {
            Err(e) => {
                return Err(e);
            },
            Ok(x) => x,
        };
        let d = self.skip_whitespace(c);
        let d1 = match self.expect_char(d, ',') {
            Err(e) => {
                return Err(e);
            },
            Ok(d1) => d1,
        };
        let e0 = self.skip_whitespace(d1);
        let (vals, f) = match self.consume_type_union(e0) {
            Err(e) => {
                return Err(e);
            },
            Ok(x) => x,
        };
        let g = self.skip_whitespace(f);
        let g1 = match self.expect_char(g, ']') {
            Err(e) => {
                return Err(e);
            },
            Ok(g1) => g1,
        };
        let h = self.skip_whitespace(g1);
        proof {
            lemma_canonical(types_view(keys@));
            lemma_canonical(types_view(vals@));
        }
        Ok((Type::Mapping(keys, vals), h))
    }

    /// The optional annotation at `k`.
    fn consume_type_decl(&self, k: usize) -> (r: Result<(Vec<Type>, usize), ParseError>)
        requires
            k <= self.body.len(),
        ensures
            match r {
                Ok((v, p)) => k <= p <= self.body.len() && parse_anno(self.body@, k as int) == Ok::<
                    (Seq<Ty>, int),
                    ParseError,
                >((types_view(v@), p as int)),
                Err(e) => parse_anno(self.body@, k as int) == Err::<(Seq<Ty>, int), ParseError>(e),
            },
    {
        if !self.is_char(k, ':') {
            let v: Vec<Type> = Vec::new();
            proof {
                assert(types_view(v@) =~= Seq::<Ty>::empty());
            }
            return Ok((v, k));
        }
        let j = self.skip_whitespace(k + 1);
        match self.consume_type_union(j) {
            Err(e) => Err(e),
            Ok((v, p)) => {
                proof {
                    lemma_canonical(types_view(v@));
                }
                Ok((v, p))
            },
        }
    }

    /// The run of letters at `j`.
    fn consume_name(&self, j: usize) -> (r: (String, usize))
        requires
            j <= self.body.len(),
        ensures
            r.1 == run_end(self.body@, j as int, true),
            r.0@ == self.body@.subrange(j as int, r.1 as int),
            j <= r.1 <= self.body.len(),
    {
        let ghost b = self.body@;
        let mut name = String::new();
        let mut i = j;
        while i < self.body.len() && letter(self.body[i])
            invariant
                b == self.body@,
                j <= i <= self.body.len(),
                run_end(b, i as int, true) == run_end(b, j as int, true),
                name@ == b.subrange(j as int, i as int),
            decreases self.body.len() - i,
        {
            push_char(&mut name, self.body[i]);
            proof {
                assert(name@ =~= b.subrange(j as int, i + 1));
            }
            i = i + 1;
        }
        (name, i)
    }

    /// The declaration at `i` (which holds `let`).
    fn consume_var(&self, i: usize) -> (r: Result<(Expr, usize), ParseError>)
        requires
            i <= self.body.len(),
            has_word(self.body@, i as int, word_let()),
        ensures
            expr_result(r) == parse_var(self.body@, i as int),
            advances(r, i as int, self.body.len() as int),
    {
        let ghost b = self.body@;
        let j = self.skip_whitespace(i + 3);
        let (name, e) = self.consume_name(j);
        if e == j {
            if j < self.body.len() {
                return Err(ParseError::UnexpectedCharacter { expected: Expected::Name, found: self.body[j], position: j });
            } else {
                return Err(ParseError::UnexpectedEndOfInput);
            }
        }
        let k = self.skip_whitespace(e);
        let (mut types, p) = match self.consume_type_decl(k) {
            Err(err) => {
                return Err(err);
            },
            Ok(x) => x,
        };
        let after_eq = match self.expect_char(p, '=') {
            Err(err) => {
                return Err(err);
            },
            Ok(after_eq) => after_eq,
        };
        let value_at = self.skip_whitespace(after_eq);
        match self.consume_value(value_at) {
            Err(err) => Err(err),
            Ok((v, q)) => {
                proof {
                    lemma_types_view(types@);
                }
                if types.len() == 0 {
                    types.push(v.type_of());
                    proof {
                        lemma_types_view(types@);
                        assert(types_view(types@) =~= seq![infer(v@)]);
                    }
                }
                let q2 = self.skip_whitespace(q);
                let q3 = self.consume_char(q2, ';');
                let inner = Expr::Value(v);
                proof {
                    assert(inner@ == ExprModel::Value(v@));
                }
                Ok((Expr::Var(name, types, Box::new(inner)), q3))
            },
        }
    }

    /// One statement at `i`, a declaration or a bare value, and the optional
    /// `;` and whitespace after it.
    fn consume_statement(&self, i: usize) -> (r: Result<(Expr, usize), ParseError>)
        requires
            i <= self.body.len(),
            has_word(self.body@, i as int, word_let()) || starts_value(self.body@, i as int),
        ensures
            match r {
                Ok((x, k)) => i < k <= self.body.len() && forall|acc: Seq<ExprModel>|
                    #[trigger] parse_program(self.body@, i as int, acc) == parse_program(
                        self.body@,
                        k as int,
                        acc.push(x@),
                    ),
                Err(e) => forall|acc: Seq<ExprModel>|
                    #[trigger] parse_program(self.body@, i as int, acc) == Err::<
                        Seq<ExprModel>,
                        ParseError,
                    >(e),
            },
    {
        let ghost b = self.body@;
        let x;
        let k;
        if self.is_var_dec(i) {
            match self.consume_var(i) {
                Err(e) => {
                    return Err(e);
                },
                Ok((x1, k1)) => {
                    x = x1;
                    k = k1;
                },
            }
        } else {
            match self.consume_value(i) {
                Err(e) => {
                    return Err(e);
                },
                Ok((v, k1)) => {
                    x = Expr::Value(v);
                    k = k1;
                },
            }
        }
        let k2 = self.skip_whitespace(k);
        let k3 = self.consume_char(k2, ';');
        let k4 = self.skip_whitespace(k3);
        Ok((x, k4))
    }

    /// Parses the whole input from the current position: statements, each
    /// with an optional `;`, up to the end (see [`parse_program`]).
    pub fn parse(&mut self) -> (r: Result<Vec<Expr>, ParseError>)
        requires
            old(self).wf(),
        ensures
            final(self).input() == old(self).input(),
            final(self).wf(),
            program_result(r) == parse_program(
                old(self).input(),
                skip_ws(old(self).input(), old(self).position()),
                Seq::empty(),
            ),
    {
        let ghost b = self.body@;
        let ghost start = skip_ws(b, self.index as int);
        let mut exprs: Vec<Expr> = Vec::new();
        self.index = self.skip_whitespace(self.index);
        proof {
            assert(exprs_view(exprs@) =~= Seq::<ExprModel>::empty());
        }
        loop
            invariant
                b == self.body@,
                b == old(self).body@,
                start == skip_ws(old(self).body@, old(self).index as int),
                self.index <= self.body.len(),
                parse_program(b, start, Seq::empty()) == parse_program(
                    b,
                    self.index as int,
                    exprs_view(exprs@),
                ),
            ensures
                b == self.body@,
                self.index <= self.body.len(),
                parse_program(b, start, Seq::empty()) == parse_program(
                    b,
                    self.index as int,
                    exprs_view(exprs@),
                ),
                !has_word(b, self.index as int, word_let()),
                !starts_value(b, self.index as int),
            decreases self.body.len() - self.index,
        {
            let i = self.index;
            if !(self.is_var_dec(i) || self.is_value(i)) {
                break;
            }
            match self.consume_statement(i) {
                Err(e) => {
                    return Err(e);
                },
                Ok((x, k)) => {
                    let ghost before = exprs@;
                    exprs.push(x);
                    proof {
                        assert(exprs_view(exprs@) =~= exprs_view(before).push(x@));
                    }
                    self.index = k;
                },
            }
        }
        if self.index != self.body.len() {
            return Err(ParseError::TrailingInput { position: self.index });
        }
        Ok(exprs)
    }
}

impl Clone for Parser {
    /// A parser over the same input, at the same position.
    fn clone(&self) -> (r: Parser)
        ensures
            r.input() == self.input(),
            r.position() == self.position(),
            r.wf() == self.wf(),
    {
        let mut body: Vec<char> = Vec::new();
        let mut i: usize = 0;
        while i < self.body.len()
            invariant
                i <= self.body.len(),
                body@ == self.body@.subrange(0, i as int),
            decreases self.body.len() - i,
        {
            body.push(self.body[i]);
            proof {
                assert(body@ =~= self.body@.subrange(0, i + 1));
            }
            i = i + 1;
        }
        proof {
            assert(body@ =~= self.body@);
        }
        Parser { body, index: self.index }
    }
}

} // verus!