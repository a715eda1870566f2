//! Builds a JSON value from tokens.
//!
//! Values are read by recursive descent.  Object keys are strings; a key
//! given twice keeps its first place and takes the value given last.  The
//! whole token sequence must be one value.
//!
//! Inside an object, a comma must not be the last token nor stand right
//! before `}` or `]`.  Inside an array, commas are skipped wherever they
//! stand.  Two more comma faults are noted while reading, without stopping
//! it: a comma right before an array's `]`, and a member (of an object or
//! an array) read right after another one with no comma between them.
//! When the tokens form one value, the first such fault, in reading order,
//! is reported in place of the value; any other error takes precedence.
use vstd::prelude::*;
use crate::tokenizer::{Token, TokenV, tokens_view};

verus! {

/// A JSON value.
///
/// A number holds the text of its token.  An object holds its entries in
/// the order in which their keys first appear, each key once.
#[derive(Debug)]
pub enum Json {
    Null,
    Bool(bool),
    Number(String),
    String(String),
    Array(Vec<Json>),
    Object(Vec<(String, Json)>),
}

/// The mathematical value of a JSON value.
pub enum JsonV {
    Null,
    Bool(bool),
    Number(Seq<char>),
    Str(Seq<char>),
    Array(Seq<JsonV>),
    Object(Seq<(Seq<char>, JsonV)>),
}

/// The view of a JSON value.
pub open spec fn json_view(j: Json) -> JsonV
    decreases j,
{
    match j {
        Json::Null => JsonV::Null,
        Json::Bool(b) => JsonV::Bool(b),
        Json::Number(n) => JsonV::Number(n@),
        Json::String(s) => JsonV::Str(s@),
        Json::Array(v) => JsonV::Array(elements_view(v@)),
        Json::Object(m) => JsonV::Object(entries_view(m@)),
    }
}

/// The views of array elements.
pub open spec fn elements_view(s: Seq<Json>) -> Seq<JsonV>
    decreases s,
{
    Seq::new(
        s.len(),
        |i: int|
            if 0 <= i < s.len() {
                json_view(s[i])
            } else {
                JsonV::Null
            },
    )
}

/// The views of object entries.
pub open spec fn entries_view(s: Seq<(String, Json)>) -> Seq<(Seq<char>, JsonV)>
    decreases s,
{
    Seq::new(
        s.len(),
        |i: int|
            if 0 <= i < s.len() {
                (s[i].0@, json_view(s[i].1))
            } else {
                (Seq::empty(), JsonV::Null)
            },
    )
}

/// Why tokens do not form one JSON value.
#[derive(Debug, Clone, Copy, PartialEq, Eq)]
pub enum ParseError {
    /// A value was expected, and the tokens ended.
    UnexpectedEnd,
    /// A value was expected, and the token cannot start one.
    UnexpectedToken,
    /// Tokens are left over after the value.
    TrailingContent,
    /// The tokens end right after a comma inside an object.
    EndAfterComma,
    /// A comma stands right before `}` or `]` inside an object, or right
    /// before `]` inside an array.
    TrailingComma,
    /// The tokens end right after an object key.
    EndBeforeColon,
    /// An object key is followed by something else than `:`.
    ExpectedColon,
    /// An object member starts with something else than a string.
    NonStringKey,
    /// An object is not closed.
    UnclosedObject,
    /// An array is not closed.
    UnclosedArray,
    /// Two members of an object or an array follow each other without a
    /// comma between them.
    MissingComma,
}

impl ParseError {
    /// The text of the error.
    pub open spec fn spec_message(self) -> Seq<char> {
        match self {
            ParseError::UnexpectedEnd => "unexpected end of input"@,
            ParseError::UnexpectedToken => "error"@,
            ParseError::TrailingContent => "unexpected content after valid JSON value"@,
            ParseError::EndAfterComma => "unexpected end of input after `,`"@,
            ParseError::TrailingComma => "trailing commas are not allowed"@,
            ParseError::EndBeforeColon => "unexpected end of input, expected `:`"@,
            ParseError::ExpectedColon => "expected a `:`"@,
            ParseError::NonStringKey => "only strings can be object keys"@,
            ParseError::UnclosedObject => "unexpected end of input, expected `}`"@,
            ParseError::UnclosedArray => "unexpected end of input, expected `]`"@,
            ParseError::MissingComma => "expected `,` between members"@,
        }
    }

    /// The text of the error.
    pub fn message(&self) -> (r: String)
        ensures
            r@ == self.spec_message(),
    {
        match self {
            ParseError::UnexpectedEnd => "unexpected end of input".to_owned(),
            ParseError::UnexpectedToken => "error".to_owned(),
            ParseError::TrailingContent => "unexpected content after valid JSON value".to_owned(),
            ParseError::EndAfterComma => "unexpected end of input after `,`".to_owned(),
            ParseError::TrailingComma => "trailing commas are not allowed".to_owned(),
            ParseError::EndBeforeColon => "unexpected end of input, expected `:`".to_owned(),
            ParseError::ExpectedColon => "expected a `:`".to_owned(),
            ParseError::NonStringKey => "only strings can be object keys".to_owned(),
            ParseError::UnclosedObject => "unexpected end of input, expected `}`".to_owned(),
            ParseError::UnclosedArray => "unexpected end of input, expected `]`".to_owned(),
            ParseError::MissingComma => "expected `,` between members".to_owned(),
        }
    }
}

/// `entries` has an entry for key `k`.
pub open spec fn has_key(entries: Seq<(Seq<char>, JsonV)>, k: Seq<char>) -> bool {
    exists|j: int| 0 <= j < entries.len() && (#[trigger] entries[j]).0 == k
}

/// No key occurs twice in `entries`.
pub open spec fn keys_distinct(entries: Seq<(Seq<char>, JsonV)>) -> bool {
    forall|a: int, b: int|
        0 <= a < entries.len() && 0 <= b < entries.len() && a != b ==> (#[trigger] entries[a]).0
            != (#[trigger] entries[b]).0
}

/// `entries` after setting key `k` to `v`: the entry of `k` takes the new
/// value where it stands, or a new entry comes last.
pub open spec fn set_entry(entries: Seq<(Seq<char>, JsonV)>, k: Seq<char>, v: JsonV) -> Seq<
    (Seq<char>, JsonV),
> {
    if has_key(entries, k) {
        entries.map_values(
            |e: (Seq<char>, JsonV)|
                if e.0 == k {
                    (k, v)
                } else {
                    e
                },
        )
    } else {
        entries.push((k, v))
    }
}

/// A comma at `i` inside an object is followed by a token other than `}`
/// and `]`.
pub open spec fn comma_then(t: Seq<TokenV>, i: int) -> Result<(), ParseError> {
    if i + 1 >= t.len() {
        Err(ParseError::EndAfterComma)
    } else {
        match t[i + 1] {
            TokenV::RightBrace | TokenV::RightBracket => Err(ParseError::TrailingComma),
            _ => Ok(()),
        }
    }
}

/// The first of two comma faults, in reading order.
pub open spec fn first_fault(a: Option<ParseError>, b: Option<ParseError>) -> Option<ParseError> {
    if a is Some {
        a
    } else {
        b
    }
}

/// The fault of a member read right after another one.
pub open spec fn missing_comma_if(after_value: bool) -> Option<ParseError> {
    if after_value {
        Some(ParseError::MissingComma)
    } else {
        None
    }
}

/// The fault of an array comma at `i` that stands right before `]`.
pub open spec fn trailing_comma_at(t: Seq<TokenV>, i: int) -> Option<ParseError> {
    if 0 <= i && i + 1 < t.len() && t[i + 1] is RightBracket {
        Some(ParseError::TrailingComma)
    } else {
        None
    }
}

/// A value read from some position: the value, the position right after
/// it, and the first comma fault met inside it.
pub type ValueRead = (JsonV, int, Option<ParseError>);

/// The value that starts at token `i`.
pub open spec fn value_at(t: Seq<TokenV>, i: int) -> Result<ValueRead, ParseError>
    decreases t.len() - i, 0int,
{
    if i < 0 || i >= t.len() {
        Err(ParseError::UnexpectedEnd)
    } else {
        match t[i] {
            TokenV::LeftBrace => members(t, i + 1, false, seq![], None),
            TokenV::LeftBracket => elements(t, i + 1, false, seq![], None),
            TokenV::Str(s) => Ok((JsonV::Str(s), i + 1, None)),
            TokenV::Num(n) => Ok((JsonV::Number(n), i + 1, None)),
            TokenV::True => Ok((JsonV::Bool(true), i + 1, None)),
            TokenV::False => Ok((JsonV::Bool(false), i + 1, None)),
            TokenV::Null => Ok((JsonV::Null, i + 1, None)),
            _ => Err(ParseError::UnexpectedToken),
        }
    }
}

/// The rest of an array from token `i` on: `acc` holds the elements read so
/// far, `after_value` says whether the last thing read was an element, and
/// `fault` is the first comma fault met so far.
pub open spec fn elements(
    t: Seq<TokenV>,
    i: int,
    after_value: bool,
    acc: Seq<JsonV>,
    fault: Option<ParseError>,
) -> Result<ValueRead, ParseError>
    decreases t.len() - i, 1int,
{
    if i < 0 || i >= t.len() {
        Err(ParseError::UnclosedArray)
    } else {
        match t[i] {
            TokenV::RightBracket => Ok((JsonV::Array(acc), i + 1, fault)),
            TokenV::Comma => elements(
                t,
                i + 1,
                false,
                acc,
                first_fault(fault, trailing_comma_at(t, i)),
            ),
            _ => match value_at(t, i) {
                Err(e) => Err(e),
                Ok((v, j, f)) => if i < j <= t.len() {
                    elements(
                        t,
                        j,
                        true,
                        acc.push(v),
                        first_fault(fault, first_fault(missing_comma_if(after_value), f)),
                    )
                } else {
                    Err(ParseError::UnexpectedEnd)
                },
            },
        }
    }
}

/// The rest of an object from token `i` on: `acc` holds the entries read so
/// far, `after_value` says whether the last thing read was a member, and
/// `fault` is the first comma fault met so far.
pub open spec fn members(
    t: Seq<TokenV>,
    i: int,
    after_value: bool,
    acc: Seq<(Seq<char>, JsonV)>,
    fault: Option<ParseError>,
) -> Result<ValueRead, ParseError>
    decreases t.len() - i, 1int,
{
    if i < 0 || i >= t.len() {
        Err(ParseError::UnclosedObject)
    } else {
        match t[i] {
            TokenV::RightBrace => Ok((JsonV::Object(acc), i + 1, fault)),
            TokenV::Comma => match comma_then(t, i) {
                Err(e) => Err(e),
                Ok(_) => members(t, i + 1, false, acc, fault),
            },
            TokenV::Str(k) => if i + 1 >= t.len() {
                Err(ParseError::EndBeforeColon)
            } else if !(t[i + 1] is Colon) {
                Err(ParseError::ExpectedColon)
            } else {
                match value_at(t, i + 2) {
                    Err(e) => Err(e),
                    Ok((v, j, f)) => if i + 2 < j <= t.len() {
                        members(
                            t,
                            j,
                            true,
                            set_entry(acc, k, v),
                            first_fault(fault, first_fault(missing_comma_if(after_value), f)),
                        )
                    } else {
                        Err(ParseError::UnexpectedEnd)
                    },
                }
            },
            _ => Err(ParseError::NonStringKey),
        }
    }
}

/// The value that the whole token sequence `t` forms.
pub open spec fn parse_tokens(t: Seq<TokenV>) -> Result<JsonV, ParseError> {
    match value_at(t, 0) {
        Err(e) => Err(e),
        Ok((v, j, f)) => if j != t.len() {
            Err(ParseError::TrailingContent)
        } else {
            match f {
                Some(e) => Err(e),
                None => Ok(v),
            }
        },
    }
}

/// A value read from `i` ends after `i` and no further than the end.
pub proof fn lemma_value_at_bounds(t: Seq<TokenV>, i: int)
    ensures
        value_at(t, i) matches Ok((_, j, _)) ==> i < j <= t.len(),
    decreases t.len() - i, 0int,
{
    if 0 <= i < t.len() {
        match t[i] {
            TokenV::LeftBrace => lemma_members_bounds(t, i + 1, false, seq![], None),
            TokenV::LeftBracket => lemma_elements_bounds(t, i + 1, false, seq![], None),
            _ => {},
        }
    }
}

pub proof fn lemma_elements_bounds(
    t: Seq<TokenV>,
    i: int,
    after_value: bool,
    acc: Seq<JsonV>,
    fault: Option<ParseError>,
)
    ensures
        elements(t, i, after_value, acc, fault) matches Ok((_, j, _)) ==> i < j <= t.len(),
    decreases t.len() - i, 1int,
{
    if 0 <= i < t.len() {
        match t[i] {
            TokenV::RightBracket => {},
            TokenV::Comma => {
                lemma_elements_bounds(
                    t,
                    i + 1,
                    false,
                    acc,
                    first_fault(fault, trailing_comma_at(t, i)),
                );
            },
            _ => {
                if let Ok((v, j, f)) = value_at(t, i) {
                    if i < j <= t.len() {
                        lemma_elements_bounds(
                            t,
                            j,
                            true,
                            acc.push(v),
                            first_fault(fault, first_fault(missing_comma_if(after_value), f)),
                        );
                    }
                }
            },
        }
    }
}

pub proof fn lemma_members_bounds(
    t: Seq<TokenV>,
    i: int,
    after_value: bool,
    acc: Seq<(Seq<char>, JsonV)>,
    fault: Option<ParseError>,
)
    ensures
        members(t, i, after_value, acc, fault) matches Ok((_, j, _)) ==> i < j <= t.len(),
    decreases t.len() - i, 1int,
{
    if 0 <= i < t.len() {
        match t[i] {
            TokenV::RightBrace => {},
            TokenV::Comma => {
                if comma_then(t, i) is Ok {
                    lemma_members_bounds(t, i + 1, false, acc, fault);
                }
            },
            TokenV::Str(k) => {
                if i + 1 < t.len() && t[i + 1] is Colon {
                    if let Ok((v, j, f)) = value_at(t, i + 2) {
                        if i + 2 < j <= t.len() {
                            lemma_members_bounds(
                                t,
                                j,
                                true,
                                set_entry(acc, k, v),
                                first_fault(fault, first_fault(missing_comma_if(after_value), f)),
                            );
                        }
                    }
                }
            },
            _ => {},
        }
    }
}

/// What a reader of one value returns, seen through the view.
pub open spec fn value_result_view(r: Result<(Json, usize, Option<ParseError>), ParseError>) -> Result<
    ValueRead,
    ParseError,
> {
    match r {
        Ok((j, n, f)) => Ok((json_view(j), n as int, f)),
        Err(e) => Err(e),
    }
}

/// What `parse` returns, seen through the view.
pub open spec fn parse_result_view(r: Result<Json, ParseError>) -> Result<JsonV, ParseError> {
    match r {
        Ok(j) => Ok(json_view(j)),
        Err(e) => Err(e),
    }
}

/// Sets `key` to `val` in entries whose keys are distinct.
fn set_entry_exec(m: &mut Vec<(String, Json)>, key: String, val: Json)
    requires
        keys_distinct(entries_view(old(m)@)),
    ensures
        entries_view(final(m)@) == set_entry(entries_view(old(m)@), key@, json_view(val)),
        keys_distinct(entries_view(final(m)@)),
{
    let ghost old_view = entries_view(m@);
    let ghost k = key@;
    let ghost v = json_view(val);
    let mut j: usize = 0;
    while j < m.len()
        invariant
            m@ == old(m)@,
            old_view == entries_view(m@),
            k == key@,
            v == json_view(val),
            keys_distinct(old_view),
            j <= m@.len(),
            forall|a: int| 0 <= a < j ==> (#[trigger] m@[a]).0@ != k,
        decreases m.len() - j,
    {
        let same = m[j].0 == key;
        assert(same == (m@[j as int].0@ == key@));

        if same {
            let ghost at = j as int;
            m.set(j, (key, val));
            proof {
                assert(has_key(old_view, k)) by {
                    assert(old_view[at].0 == k);
                }
                assert(entries_view(m@) =~= set_entry(old_view, k, v)) by {
                    assert forall|a: int| 0 <= a < old_view.len() && a != at implies old_view[a].0
                        != k by {
                        assert(old_view[a].0 != old_view[at].0);
                    }
                }
            }
            return;
        }
        assert(m@[j as int].0@ != k);
        j += 1;
    }
    proof {
        assert(!has_key(old_view, k)) by {
            if has_key(old_view, k) {
                let a = choose|a: int| 0 <= a < old_view.len() && (#[trigger] old_view[a]).0 == k;
                assert(m@[a].0@ == k);
            }
        }
    }
    m.push((key, val));
    assert(entries_view(m@) =~= old_view.push((k, v)));
}

/// The first of two comma faults, in reading order.
fn first_fault_exec(a: Option<ParseError>, b: Option<ParseError>) -> (r: Option<ParseError>)
    ensures
        r == first_fault(a, b),
{
    match a {
        Some(_) => a,
        None => b,
    }
}

/// Reads the value that starts at token `idx`.
fn parse_value(tokens: &[Token], idx: usize) -> (r: Result<(Json, usize, Option<ParseError>), ParseError>)
    ensures
        value_result_view(r) == value_at(tokens_view(tokens@), idx as int),
    decreases tokens@.len() - idx, 1int,
{
    if idx < tokens.len() {
        match &tokens[idx] {
            Token::LeftBrace => parse_object(tokens, idx),
            Token::LeftBracket => parse_array(tokens, idx),
            Token::StringToken(s) => Ok((Json::String(s.clone()), idx + 1, None)),
            Token::NumberToken(n) => Ok((Json::Number(n.clone()), idx + 1, None)),
            Token::True => Ok((Json::Bool(true), idx + 1, None)),
            Token::False => Ok((Json::Bool(false), idx + 1, None)),
            Token::Null => Ok((Json::Null, idx + 1, None)),
            _ => Err(ParseError::UnexpectedToken),
        }
    } else {
        Err(ParseError::UnexpectedEnd)
    }
}

/// Reads the array whose `[` stands at token `open`.
fn parse_array(tokens: &[Token], open: usize) -> (r: Result<(Json, usize, Option<ParseError>), ParseError>)
    requires
        open < tokens.len(),
        tokens@[open as int] is LeftBracket,
    ensures
        value_result_view(r) == elements(tokens_view(tokens@), open + 1, false, seq![], None),
    decreases tokens@.len() - open, 0int,
{
    let ghost t = tokens_view(tokens@);
    let mut arr: Vec<Json> = Vec::new();
    let mut idx = open + 1;
    let mut after_value = false;
    let mut fault: Option<ParseError> = None;
    assert(elements_view(arr@) =~= seq![]);
    while idx < tokens.len()
        invariant
            t == tokens_view(tokens@),
            open < idx <= tokens@.len(),
            elements(t, open + 1, false, seq![], None) == elements(
                t,
                idx as int,
                after_value,
                elements_view(arr@),
                fault,
            ),
        decreases tokens.len() - idx,
    {
        match &tokens[idx] {
            Token::RightBracket => {
                return Ok((Json::Array(arr), idx + 1, fault));
            },
            Token::Comma => {
                let before_close = idx + 1 < tokens.len() && match &tokens[idx + 1] {
                    Token::RightBracket => true,
                    _ => false,
                };
                let here = if before_close {
                    Some(ParseError::TrailingComma)
                } else {
                    None
                };
                assert(here == trailing_comma_at(t, idx as int));
                fault = first_fault_exec(fault, here);
                idx += 1;
                after_value = false;
            },
            _ => {
                match parse_value(tokens, idx) {
                    Err(e) => {
                        return Err(e);
                    },
                    Ok((v, j, f)) => {
                        proof {
                            lemma_value_at_bounds(t, idx as int);
                        }
                        let missing = if after_value {
                            Some(ParseError::MissingComma)
                        } else {
                            None
                        };
                        fault = first_fault_exec(fault, first_fault_exec(missing, f));
                        let ghost before = arr@;
                        arr.push(v);
                        assert(elements_view(arr@) =~= elements_view(before).push(json_view(v)));
                        idx = j;
                        after_value = true;
                    },
                }
            },
        }
    }
    Err(ParseError::UnclosedArray)
}

/// Reads the object whose `{` stands at token `open`.
fn parse_object(tokens: &[Token], open: usize) -> (r: Result<(Json, usize, Option<ParseError>), ParseError>)
    requires
        open < tokens.len(),
        tokens@[open as int] is LeftBrace,
    ensures
        value_result_view(r) == members(tokens_view(tokens@), open + 1, false, seq![], None),
    decreases tokens@.len() - open, 0int,
{
    let ghost t = tokens_view(tokens@);
    let mut m: Vec<(String, Json)> = Vec::new();
    let mut idx = open + 1;
    let mut after_value = false;
    let mut fault: Option<ParseError> = None;
    assert(entries_view(m@) =~= seq![]);
    while idx < tokens.len()
        invariant
            t == tokens_view(tokens@),
            open < idx <= tokens@.len(),
            keys_distinct(entries_view(m@)),
            members(t, open + 1, false, seq![], None) == members(
                t,
                idx as int,
                after_value,
                entries_view(m@),
                fault,
            ),
        decreases tokens.len() - idx,
    {
        match &tokens[idx] {
            Token::RightBrace => {
                return Ok((Json::Object(m), idx + 1, fault));
            },
            Token::Comma => {
                idx += 1;
                if idx >= tokens.len() {
                    return Err(ParseError::EndAfterComma);
                }
                match &tokens[idx] {
                    Token::RightBrace | Token::RightBracket => {
                        return Err(ParseError::TrailingComma);
                    },
                    _ => {},
                }
                after_value = false;
            },
            Token::StringToken(s) => {
                let key = s.clone();
                if idx + 1 >= tokens.len() {
                    return Err(ParseError::EndBeforeColon);
                }
                match &tokens[idx + 1] {
                    Token::Colon => {},
                    _ => {
                        return Err(ParseError::ExpectedColon);
                    },
                }
                match parse_value(tokens, idx + 2) {
                    Err(e) => {
                        return Err(e);
                    },
                    Ok((v, j, f)) => {
                        proof {
                            lemma_value_at_bounds(t, idx + 2);
                        }
                        let missing = if after_value {
                            Some(ParseError::MissingComma)
                        } else {
                            None
                        };
                        fault = first_fault_exec(fault, first_fault_exec(missing, f));
                        set_entry_exec(&mut m, key, v);
                        idx = j;
                        after_value = true;
                    },
                }
            },
            _ => {
                return Err(ParseError::NonStringKey);
            },
        }
    }
    Err(ParseError::UnclosedObject)
}

/// Builds the JSON value that the tokens form.
///
/// The whole token sequence must be one value: tokens left over after it
/// are an error.  When they form one value, a comma fault met while reading
/// it (see the module's documentation) is reported in its place.
pub fn parse(tokens: &[Token]) -> (r: Result<Json, ParseError>)
    ensures
        parse_result_view(r) == parse_tokens(tokens_view(tokens@)),
{
    match parse_value(tokens, 0) {
        Err(e) => Err(e),
        Ok((j, consumed, fault)) => {
            if consumed != tokens.len() {
                Err(ParseError::TrailingContent)
            } else {
                match fault {
                    Some(e) => Err(e),
                    None => Ok(j),
                }
            }
        },
    }
}

/// Every object inside `v`, `v` included, has distinct keys.
pub open spec fn json_wf(v: JsonV) -> bool
    decreases v,
{
    match v {
        JsonV::Array(items) => forall|i: int| 0 <= i < items.len() ==> json_wf(#[trigger] items[i]),
        JsonV::Object(es) => keys_distinct(es) && forall|i: int|
            0 <= i < es.len() ==> json_wf(#[trigger] es[i].1),
        _ => true,
    }
}

/// Setting a key: the keys stay distinct, the key now holds the new value,
/// and every other entry keeps its place and its value.
pub proof fn lemma_set_entry_reads_back(es: Seq<(Seq<char>, JsonV)>, k: Seq<char>, v: JsonV)
    requires
        keys_distinct(es),
    ensures
        ({
            let r = set_entry(es, k, v);
            &&& keys_distinct(r)
            &&& has_key(r, k)
            &&& forall|j: int| 0 <= j < r.len() && (#[trigger] r[j]).0 == k ==> r[j].1 == v
            &&& forall|j: int| 0 <= j < es.len() && (#[trigger] es[j]).0 != k ==> r[j] == es[j]
            &&& forall|k2: Seq<char>| k2 != k ==> (has_key(r, k2) <==> has_key(es, k2))
            &&& r.len() == if has_key(es, k) { es.len() } else { es.len() + 1 }
        }),
{
    let r = set_entry(es, k, v);
    if has_key(es, k) {
        let j = choose|j: int| 0 <= j < es.len() && (#[trigger] es[j]).0 == k;
        assert(r[j].0 == k);
        assert forall|k2: Seq<char>| k2 != k implies (has_key(r, k2) <==> has_key(es, k2)) by {
            if has_key(r, k2) {
                let a = choose|a: int| 0 <= a < r.len() && (#[trigger] r[a]).0 == k2;
                assert(es[a].0 == k2);
            }
            if has_key(es, k2) {
                let a = choose|a: int| 0 <= a < es.len() && (#[trigger] es[a]).0 == k2;
                assert(r[a].0 == k2);
            }
        }
    } else {
        assert(r[es.len() as int].0 == k);
        assert forall|k2: Seq<char>| k2 != k implies (has_key(r, k2) <==> has_key(es, k2)) by {
            if has_key(r, k2) {
                let a = choose|a: int| 0 <= a < r.len() && (#[trigger] r[a]).0 == k2;
                assert(es[a].0 == k2);
            }
            if has_key(es, k2) {
                let a = choose|a: int| 0 <= a < es.len() && (#[trigger] es[a]).0 == k2;
                assert(r[a].0 == k2);
            }
        }
    }
}

/// The values of entries whose values are well formed, after setting a key
/// to a well formed value, are well formed.
proof fn lemma_set_entry_wf(es: Seq<(Seq<char>, JsonV)>, k: Seq<char>, v: JsonV)
    requires
        keys_distinct(es),
        forall|i: int| 0 <= i < es.len() ==> json_wf(#[trigger] es[i].1),
        json_wf(v),
    ensures
        keys_distinct(set_entry(es, k, v)),
        forall|i: int|
            0 <= i < set_entry(es, k, v).len() ==> json_wf(#[trigger] set_entry(es, k, v)[i].1),
{
    lemma_set_entry_reads_back(es, k, v);
    let r = set_entry(es, k, v);
    assert forall|i: int| 0 <= i < r.len() implies json_wf(#[trigger] r[i].1) by {
        if r[i].0 == k {
        } else {
            assert(r[i] == es[i]);
        }
    }
}

proof fn lemma_value_wf(t: Seq<TokenV>, i: int)
    ensures
        value_at(t, i) matches Ok((v, _, _)) ==> json_wf(v),
    decreases t.len() - i, 0int,
{
    if 0 <= i < t.len() {
        match t[i] {
            TokenV::LeftBrace => lemma_members_wf(t, i + 1, false, seq![], None),
            TokenV::LeftBracket => lemma_elements_wf(t, i + 1, false, seq![], None),
            _ => {},
        }
    }
}

proof fn lemma_elements_wf(
    t: Seq<TokenV>,
    i: int,
    after_value: bool,
    acc: Seq<JsonV>,
    fault: Option<ParseError>,
)
    requires
        forall|k: int| 0 <= k < acc.len() ==> json_wf(#[trigger] acc[k]),
    ensures
        elements(t, i, after_value, acc, fault) matches Ok((v, _, _)) ==> json_wf(v),
    decreases t.len() - i, 1int,
{
    if 0 <= i < t.len() {
        match t[i] {
            TokenV::RightBracket => {},
            TokenV::Comma => {
                lemma_elements_wf(t, i + 1, false, acc, first_fault(fault, trailing_comma_at(t, i)));
            },
            _ => {
                lemma_value_wf(t, i);
                if let Ok((v, j, f)) = value_at(t, i) {
                    if i < j <= t.len() {
                        let acc2 = acc.push(v);
                        assert forall|k: int| 0 <= k < acc2.len() implies json_wf(
                            #[trigger] acc2[k],
                        ) by {
                            if k < acc.len() {
                                assert(acc2[k] == acc[k]);
                            }
                        }
                        lemma_elements_wf(
                            t,
                            j,
                            true,
                            acc2,
                            first_fault(fault, first_fault(missing_comma_if(after_value), f)),
                        );
                    }
                }
            },
        }
    }
}

proof fn lemma_members_wf(
    t: Seq<TokenV>,
    i: int,
    after_value: bool,
    acc: Seq<(Seq<char>, JsonV)>,
    fault: Option<ParseError>,
)
    requires
        keys_distinct(acc),
        forall|k: int| 0 <= k < acc.len() ==> json_wf(#[trigger] acc[k].1),
    ensures
        members(t, i, after_value, acc, fault) matches Ok((v, _, _)) ==> json_wf(v),
    decreases t.len() - i, 1int,
{
    if 0 <= i < t.len() {
        match t[i] {
            TokenV::RightBrace => {},
            TokenV::Comma => {
                if comma_then(t, i) is Ok {
                    lemma_members_wf(t, i + 1, false, acc, fault);
                }
            },
            TokenV::Str(k) => {
                if i + 1 < t.len() && t[i + 1] is Colon {
                    lemma_value_wf(t, i + 2);
                    if let Ok((v, j, f)) = value_at(t, i + 2) {
                        if i + 2 < j <= t.len() {
                            lemma_set_entry_wf(acc, k, v);
                            lemma_members_wf(
                                t,
                                j,
                                true,
                                set_entry(acc, k, v),
                                first_fault(fault, first_fault(missing_comma_if(after_value), f)),
                            );
                        }
                    }
                }
            },
            _ => {},
        }
    }
}

/// Every object in a parsed value has distinct keys: a key given twice in
/// the tokens yields one entry.
pub proof fn lemma_parsed_value_well_formed(t: Seq<TokenV>)
    ensures
        parse_tokens(t) matches Ok(v) ==> json_wf(v),
{
    lemma_value_wf(t, 0);
}

/// The tokens that write `v` out: members separated by single commas, each
/// key followed by a colon.
pub open spec fn render(v: JsonV) -> Seq<TokenV>
    decreases v,
{
    match v {
        JsonV::Null => seq![TokenV::Null],
        JsonV::Bool(b) => if b {
            seq![TokenV::True]
        } else {
            seq![TokenV::False]
        },
        JsonV::Number(n) => seq![TokenV::Num(n)],
        JsonV::Str(s) => seq![TokenV::Str(s)],
        JsonV::Array(items) => seq![TokenV::LeftBracket] + render_items(items) + seq![
            TokenV::RightBracket,
        ],
        JsonV::Object(es) => seq![TokenV::LeftBrace] + render_entries(es) + seq![
            TokenV::RightBrace,
        ],
    }
}

/// The tokens of array elements, separated by commas.
pub open spec fn render_items(items: Seq<JsonV>) -> Seq<TokenV>
    decreases items,
{
    if items.len() == 0 {
        seq![]
    } else if items.len() == 1 {
        render(items[0])
    } else {
        render(items[0]) + seq![TokenV::Comma] + render_items(items.subrange(1, items.len() as int))
    }
}

/// The tokens of object entries, separated by commas.
pub open spec fn render_entries(es: Seq<(Seq<char>, JsonV)>) -> Seq<TokenV>
    decreases es,
{
    if es.len() == 0 {
        seq![]
    } else if es.len() == 1 {
        seq![TokenV::Str(es[0].0), TokenV::Colon] + render(es[0].1)
    } else {
        seq![TokenV::Str(es[0].0), TokenV::Colon] + render(es[0].1) + seq![TokenV::Comma]
            + render_entries(es.subrange(1, es.len() as int))
    }
}

/// The tokens of a value are not empty and start the value.
proof fn lemma_render_starts_value(v: JsonV)
    ensures
        render(v).len() > 0,
        !(render(v)[0] is RightBrace || render(v)[0] is RightBracket || render(v)[0] is Comma
            || render(v)[0] is Colon),
{
}

/// `t` holds `r` at position `i`.
pub open spec fn holds_at(t: Seq<TokenV>, i: int, r: Seq<TokenV>) -> bool {
    0 <= i && i + r.len() <= t.len() && t.subrange(i, i + r.len()) == r
}

proof fn lemma_holds_split(t: Seq<TokenV>, i: int, a: Seq<TokenV>, b: Seq<TokenV>)
    requires
        holds_at(t, i, a + b),
    ensures
        holds_at(t, i, a),
        holds_at(t, i + a.len(), b),
{
    let w = t.subrange(i, i + (a + b).len());
    assert(w == a + b);
    assert forall|k: int| 0 <= k < a.len() implies #[trigger] t.subrange(i, i + a.len())[k]
        == a[k] by {
        assert(w[k] == t[i + k]);
        assert((a + b)[k] == a[k]);
    }
    assert(t.subrange(i, i + a.len()) =~= a);
    assert forall|k: int| 0 <= k < b.len() implies #[trigger] t.subrange(
        i + a.len(),
        i + a.len() + b.len(),
    )[k] == b[k] by {
        assert(w[k + a.len()] == t[i + a.len() + k]);
        assert((a + b)[k + a.len()] == b[k]);
    }
    assert(t.subrange(i + a.len(), i + a.len() + b.len()) =~= b);
}

proof fn lemma_holds_one(t: Seq<TokenV>, i: int, x: TokenV)
    requires
        holds_at(t, i, seq![x]),
    ensures
        t[i] == x,
{
    assert(t.subrange(i, i + 1)[0] == t[i]);
}

/// The tokens of a well formed value read back as that value, wherever they
/// stand.
proof fn lemma_read_render(v: JsonV, t: Seq<TokenV>, i: int)
    requires
        json_wf(v),
        holds_at(t, i, render(v)),
    ensures
        value_at(t, i) == Ok::<ValueRead, ParseError>((v, i + render(v).len(), None)),
    decreases v,
{
    lemma_render_starts_value(v);
    assert(t[i] == render(v)[0]) by {
        assert(t.subrange(i, i + render(v).len())[0] == t[i]);
    }
    match v {
        JsonV::Array(items) => {
            let inner = render_items(items);
            assert(render(v) =~= seq![TokenV::LeftBracket] + (inner + seq![TokenV::RightBracket]));
            lemma_holds_split(t, i, seq![TokenV::LeftBracket], inner + seq![TokenV::RightBracket]);
            lemma_read_items(items, t, i + 1, seq![]);
            assert(Seq::<JsonV>::empty() + items =~= items);
        },
        JsonV::Object(es) => {
            let inner = render_entries(es);
            assert(render(v) =~= seq![TokenV::LeftBrace] + (inner + seq![TokenV::RightBrace]));
            lemma_holds_split(t, i, seq![TokenV::LeftBrace], inner + seq![TokenV::RightBrace]);
            assert(Seq::<(Seq<char>, JsonV)>::empty() + es =~= es);
            lemma_read_entries(es, t, i + 1, seq![]);
        },
        _ => {},
    }
}

/// Elements written out and closed by `]` read back after those read so far.
proof fn lemma_read_items(items: Seq<JsonV>, t: Seq<TokenV>, i: int, acc: Seq<JsonV>)
    requires
        forall|k: int| 0 <= k < items.len() ==> json_wf(#[trigger] items[k]),
        holds_at(t, i, render_items(items) + seq![TokenV::RightBracket]),
    ensures
        elements(t, i, false, acc, None) == Ok::<ValueRead, ParseError>(
            (JsonV::Array(acc + items), i + render_items(items).len() + 1, None),
        ),
    decreases items,
{
    lemma_holds_split(t, i, render_items(items), seq![TokenV::RightBracket]);
    if items.len() == 0 {
        lemma_holds_one(t, i, TokenV::RightBracket);
        assert(acc + items =~= acc);
    } else {
        let x = items[0];
        let rest = items.subrange(1, items.len() as int);
        let rx = render(x);
        assert(json_wf(x));
        lemma_render_starts_value(x);
        if items.len() == 1 {
            lemma_holds_split(t, i, rx, seq![TokenV::RightBracket]);
            lemma_read_render(x, t, i);
            assert(t[i] == rx[0]) by {
                assert(t.subrange(i, i + rx.len())[0] == t[i]);
            }
            let j = i + rx.len();
            lemma_holds_one(t, j, TokenV::RightBracket);
            assert(acc.push(x) =~= acc + items);
            assert(elements(t, j, true, acc.push(x), None) == Ok::<ValueRead, ParseError>(
                (JsonV::Array(acc.push(x)), j + 1, None),
            ));
            assert(elements(t, i, false, acc, None) == elements(t, j, true, acc.push(x), None));
        } else {
            let tail = render_items(rest);
            assert(render_items(items) + seq![TokenV::RightBracket] =~= rx + (seq![TokenV::Comma]
                + (tail + seq![TokenV::RightBracket])));
            lemma_holds_split(t, i, rx, seq![TokenV::Comma] + (tail + seq![TokenV::RightBracket]));
            lemma_read_render(x, t, i);
            assert(t[i] == rx[0]) by {
                assert(t.subrange(i, i + rx.len())[0] == t[i]);
            }
            let j = i + rx.len();
            lemma_holds_split(t, j, seq![TokenV::Comma], tail + seq![TokenV::RightBracket]);
            lemma_holds_one(t, j, TokenV::Comma);
            assert forall|k: int| 0 <= k < rest.len() implies json_wf(#[trigger] rest[k]) by {
                assert(rest[k] == items[k + 1]);
            }
            lemma_read_items(rest, t, j + 1, acc.push(x));
            lemma_render_starts_value(rest[0]);
            assert(tail.len() > 0 && tail[0] == render(rest[0])[0]) by {
                if rest.len() > 1 {
                    assert(tail =~= render(rest[0]) + (seq![TokenV::Comma] + render_items(
                        rest.subrange(1, rest.len() as int),
                    )));
                }
            }
            assert(t[j + 1] == tail[0]) by {
                lemma_holds_split(t, j + 1, tail, seq![TokenV::RightBracket]);
                assert(t.subrange(j + 1, j + 1 + tail.len())[0] == t[j + 1]);
            }
            assert(acc.push(x) + rest =~= acc + items);
            assert(trailing_comma_at(t, j) is None);
            assert(elements(t, j, true, acc.push(x), None) == elements(t, j + 1, false, acc.push(x), None));
            assert(elements(t, i, false, acc, None) == elements(t, j, true, acc.push(x), None));
        }
    }
}

/// Entries written out and closed by `}` read back after those read so far,
/// when no key occurs twice among them all.
proof fn lemma_read_entries(
    es: Seq<(Seq<char>, JsonV)>,
    t: Seq<TokenV>,
    i: int,
    acc: Seq<(Seq<char>, JsonV)>,
)
    requires
        keys_distinct(acc + es),
        forall|k: int| 0 <= k < es.len() ==> json_wf(#[trigger] es[k].1),
        holds_at(t, i, render_entries(es) + seq![TokenV::RightBrace]),
    ensures
        members(t, i, false, acc, None) == Ok::<ValueRead, ParseError>(
            (JsonV::Object(acc + es), i + render_entries(es).len() + 1, None),
        ),
    decreases es,
{
    lemma_holds_split(t, i, render_entries(es), seq![TokenV::RightBrace]);
    if es.len() == 0 {
        lemma_holds_one(t, i, TokenV::RightBrace);
        assert(acc + es =~= acc);
    } else {
        let k = es[0].0;
        let x = es[0].1;
        let rest = es.subrange(1, es.len() as int);
        let rx = render(x);
        let head = seq![TokenV::Str(k), TokenV::Colon];
        assert(json_wf(x));
        lemma_render_starts_value(x);
        assert(!has_key(acc, k)) by {
            if has_key(acc, k) {
                let a = choose|a: int| 0 <= a < acc.len() && (#[trigger] acc[a]).0 == k;
                assert((acc + es)[a] == acc[a]);
                assert((acc + es)[acc.len() as int] == es[0]);
            }
        }
        assert(set_entry(acc, k, x) == acc.push((k, x)));
        let j = i + 2 + rx.len();
        if es.len() == 1 {
            assert(render_entries(es) + seq![TokenV::RightBrace] =~= head + (rx + seq![
                TokenV::RightBrace,
            ]));
            lemma_holds_split(t, i, head, rx + seq![TokenV::RightBrace]);
            lemma_holds_split(t, i + 2, rx, seq![TokenV::RightBrace]);
            assert(t[i] == TokenV::Str(k) && t[i + 1] == TokenV::Colon) by {
                assert(t.subrange(i, i + 2)[0] == t[i]);
                assert(t.subrange(i, i + 2)[1] == t[i + 1]);
            }
            lemma_read_render(x, t, i + 2);
            lemma_holds_one(t, j, TokenV::RightBrace);
            assert(acc.push((k, x)) =~= acc + es);
            assert(members(t, j, true, acc.push((k, x)), None) == Ok::<ValueRead, ParseError>(
                (JsonV::Object(acc.push((k, x))), j + 1, None),
            ));
            assert(members(t, i, false, acc, None) == members(t, j, true, acc.push((k, x)), None));
        } else {
            let tail = render_entries(rest);
            assert(render_entries(es) + seq![TokenV::RightBrace] =~= head + (rx + (seq![
                TokenV::Comma,
            ] + (tail + seq![TokenV::RightBrace]))));
            lemma_holds_split(t, i, head, rx + (seq![TokenV::Comma] + (tail + seq![
                TokenV::RightBrace,
            ])));
            lemma_holds_split(t, i + 2, rx, seq![TokenV::Comma] + (tail + seq![TokenV::RightBrace]));
            assert(t[i] == TokenV::Str(k) && t[i + 1] == TokenV::Colon) by {
                assert(t.subrange(i, i + 2)[0] == t[i]);
                assert(t.subrange(i, i + 2)[1] == t[i + 1]);
            }
            lemma_read_render(x, t, i + 2);
            lemma_holds_split(t, j, seq![TokenV::Comma], tail + seq![TokenV::RightBrace]);
            lemma_holds_one(t, j, TokenV::Comma);
            assert forall|a: int| 0 <= a < rest.len() implies json_wf(#[trigger] rest[a].1) by {
                assert(rest[a] == es[a + 1]);
            }
            assert(acc.push((k, x)) + rest =~= acc + es);
            lemma_read_entries(rest, t, j + 1, acc.push((k, x)));
            assert(tail.len() > 0 && tail[0] == TokenV::Str(rest[0].0)) by {
                if rest.len() > 1 {
                    assert(tail =~= seq![TokenV::Str(rest[0].0)] + (seq![TokenV::Colon] + render(
                        rest[0].1,
                    ) + seq![TokenV::Comma] + render_entries(rest.subrange(1, rest.len() as int))));
                } else {
                    assert(tail =~= seq![TokenV::Str(rest[0].0)] + (seq![TokenV::Colon] + render(
                        rest[0].1,
                    )));
                }
            }
            assert(t[j + 1] == tail[0]) by {
                lemma_holds_split(t, j + 1, tail, seq![TokenV::RightBrace]);
                assert(t.subrange(j + 1, j + 1 + tail.len())[0] == t[j + 1]);
            }
            assert(comma_then(t, j) == Ok::<(), ParseError>(()));
            assert(members(t, j, true, acc.push((k, x)), None) == members(t, j + 1, false, acc.push((k, x)), None));
            assert(members(t, i, false, acc, None) == members(t, j, true, acc.push((k, x)), None));
        }
    }
}

/// What is written reads back: the tokens of a value in which no object
/// repeats a key parse to that very value.
pub proof fn lemma_parse_render(v: JsonV)
    requires
        json_wf(v),
    ensures
        parse_tokens(render(v)) == Ok::<JsonV, ParseError>(v),
{
    let t = render(v);
    assert(t.subrange(0, t.len() as int) =~= t);
    lemma_read_render(v, t, 0);
}

/// Reading a value looks only at the tokens of that value: tokens after
/// them leave the reading, where it ends and the faults met, unchanged.
pub proof fn lemma_value_at_extend(t: Seq<TokenV>, t2: Seq<TokenV>, i: int)
    ensures
        value_at(t, i) is Ok ==> value_at(t + t2, i) == value_at(t, i),
    decreases t.len() - i, 0int,
{
    if 0 <= i < t.len() {
        assert((t + t2)[i] == t[i]);
        match t[i] {
            TokenV::LeftBrace => lemma_members_extend(t, t2, i + 1, false, seq![], None),
            TokenV::LeftBracket => lemma_elements_extend(t, t2, i + 1, false, seq![], None),
            _ => {},
        }
    }
}

proof fn lemma_comma_then_extend(t: Seq<TokenV>, t2: Seq<TokenV>, i: int)
    requires
        0 <= i < t.len(),
    ensures
        comma_then(t, i) is Ok ==> comma_then(t + t2, i) == comma_then(t, i),
{
    if comma_then(t, i) is Ok {
        assert((t + t2)[i + 1] == t[i + 1]);
    }
}

proof fn lemma_elements_extend(
    t: Seq<TokenV>,
    t2: Seq<TokenV>,
    i: int,
    after_value: bool,
    acc: Seq<JsonV>,
    fault: Option<ParseError>,
)
    ensures
        elements(t, i, after_value, acc, fault) is Ok ==> elements(
            t + t2,
            i,
            after_value,
            acc,
            fault,
        ) == elements(t, i, after_value, acc, fault),
    decreases t.len() - i, 1int,
{
    if 0 <= i < t.len() {
        assert((t + t2)[i] == t[i]);
        match t[i] {
            TokenV::RightBracket => {},
            TokenV::Comma => {
                let f1 = first_fault(fault, trailing_comma_at(t, i));
                if i + 1 < t.len() {
                    assert((t + t2)[i + 1] == t[i + 1]);
                    assert(trailing_comma_at(t + t2, i) == trailing_comma_at(t, i));
                } else {
                    assert(elements(t, i + 1, false, acc, f1) is Err);
                }
                lemma_elements_extend(t, t2, i + 1, false, acc, f1);
            },
            _ => {
                lemma_value_at_extend(t, t2, i);
                if let Ok((v, j, f)) = value_at(t, i) {
                    if i < j <= t.len() {
                        lemma_elements_extend(
                            t,
                            t2,
                            j,
                            true,
                            acc.push(v),
                            first_fault(fault, first_fault(missing_comma_if(after_value), f)),
                        );
                    }
                }
            },
        }
    }
}

proof fn lemma_members_extend(
    t: Seq<TokenV>,
    t2: Seq<TokenV>,
    i: int,
    after_value: bool,
    acc: Seq<(Seq<char>, JsonV)>,
    fault: Option<ParseError>,
)
    ensures
        members(t, i, after_value, acc, fault) is Ok ==> members(
            t + t2,
            i,
            after_value,
            acc,
            fault,
        ) == members(t, i, after_value, acc, fault),
    decreases t.len() - i, 1int,
{
    if 0 <= i < t.len() {
        assert((t + t2)[i] == t[i]);
        match t[i] {
            TokenV::RightBrace => {},
            TokenV::Comma => {
                lemma_comma_then_extend(t, t2, i);
                if comma_then(t, i) is Ok {
                    lemma_members_extend(t, t2, i + 1, false, acc, fault);
                }
            },
            TokenV::Str(k) => {
                if i + 1 < t.len() {
                    assert((t + t2)[i + 1] == t[i + 1]);
                    if t[i + 1] is Colon {
                        lemma_value_at_extend(t, t2, i + 2);
                        if let Ok((v, j, f)) = value_at(t, i + 2) {
                            if i + 2 < j <= t.len() {
                                lemma_members_extend(
                                    t,
                                    t2,
                                    j,
                                    true,
                                    set_entry(acc, k, v),
                                    first_fault(
                                        fault,
                                        first_fault(missing_comma_if(after_value), f),
                                    ),
                                );
                            }
                        }
                    }
                }
            },
            _ => {},
        }
    }
}

/// Tokens after a whole value are refused: when `t1` parses, `t1` followed
/// by more tokens reports trailing content.
pub proof fn lemma_parse_trailing_tokens(t1: Seq<TokenV>, t2: Seq<TokenV>)
    requires
        parse_tokens(t1) is Ok,
        t2.len() > 0,
    ensures
        parse_tokens(t1 + t2) == Err::<JsonV, ParseError>(ParseError::TrailingContent),
{
    lemma_value_at_extend(t1, t2, 0);
}

/// An array read from `i` on ends right after a `]`.
proof fn lemma_elements_closed(
    t: Seq<TokenV>,
    i: int,
    after_value: bool,
    acc: Seq<JsonV>,
    fault: Option<ParseError>,
)
    ensures
        elements(t, i, after_value, acc, fault) matches Ok((v, j, _)) ==> v is Array && i < j
            <= t.len() && t[j - 1] is RightBracket,
    decreases t.len() - i,
{
    if 0 <= i < t.len() {
        match t[i] {
            TokenV::RightBracket => {},
            TokenV::Comma => {
                lemma_elements_closed(t, i + 1, false, acc, first_fault(fault, trailing_comma_at(t, i)));
            },
            _ => {
                if let Ok((v, j, f)) = value_at(t, i) {
                    if i < j <= t.len() {
                        lemma_elements_closed(
                            t,
                            j,
                            true,
                            acc.push(v),
                            first_fault(fault, first_fault(missing_comma_if(after_value), f)),
                        );
                    }
                }
            },
        }
    }
}

/// An object read from `i` on ends right after a `}`.
proof fn lemma_members_closed(
    t: Seq<TokenV>,
    i: int,
    after_value: bool,
    acc: Seq<(Seq<char>, JsonV)>,
    fault: Option<ParseError>,
)
    ensures
        members(t, i, after_value, acc, fault) matches Ok((v, j, _)) ==> v is Object && i < j
            <= t.len() && t[j - 1] is RightBrace,
    decreases t.len() - i,
{
    if 0 <= i < t.len() {
        match t[i] {
            TokenV::RightBrace => {},
            TokenV::Comma => {
                if comma_then(t, i) is Ok {
                    lemma_members_closed(t, i + 1, false, acc, fault);
                }
            },
            TokenV::Str(k) => {
                if i + 1 < t.len() && t[i + 1] is Colon {
                    if let Ok((v, j, f)) = value_at(t, i + 2) {
                        if i + 2 < j <= t.len() {
                            lemma_members_closed(
                                t,
                                j,
                                true,
                                set_entry(acc, k, v),
                                first_fault(fault, first_fault(missing_comma_if(after_value), f)),
                            );
                        }
                    }
                }
            },
            _ => {},
        }
    }
}

/// A value read from tokens is closed by the bracket that matches its
/// opening one: an object starts at `{` and its last token is `}`, an
/// array starts at `[` and its last token is `]`, and any other value is
/// the single token at `i`.
pub proof fn lemma_value_closed_by_match(t: Seq<TokenV>, i: int)
    ensures
        value_at(t, i) matches Ok((v, j, _)) ==> {
            &&& i < j <= t.len()
            &&& (v is Object <==> t[i] is LeftBrace)
            &&& (v is Array <==> t[i] is LeftBracket)
            &&& (v is Object ==> t[j - 1] is RightBrace)
            &&& (v is Array ==> t[j - 1] is RightBracket)
            &&& (!(v is Object) && !(v is Array) ==> j == i + 1)
        },
{
    if 0 <= i < t.len() {
        match t[i] {
            TokenV::LeftBrace => lemma_members_closed(t, i + 1, false, seq![], None),
            TokenV::LeftBracket => lemma_elements_closed(t, i + 1, false, seq![], None),
            _ => {},
        }
    }
}

/// A token sequence that parses to an object begins with `{` and ends with
/// `}`; one that parses to an array begins with `[` and ends with `]`.
pub proof fn lemma_parsed_brackets_match(t: Seq<TokenV>)
    ensures
        parse_tokens(t) matches Ok(v) ==> {
            &&& (v is Object ==> t[0] is LeftBrace && t.last() is RightBrace)
            &&& (v is Array ==> t[0] is LeftBracket && t.last() is RightBracket)
        },
{
    lemma_value_closed_by_match(t, 0);
}

} // verus!
