//! Two ways of writing down a password composition policy: a line-based
//! rules file (one `key=value` directive per line) and a single-line
//! query string (`key=value&key=value`).  Both go through
//! `PasswordPolicy` as the shared representation, so neither format has to
//! know about the other.
//!
//! Both formats carry the same eight fields under different key names, so
//! the parser and the renderer are written once, over a `Format`, and the
//! public functions pick the format.
use vstd::prelude::*;
use vstd::string::*;
use crate::text::{
    chars_of, decimal, find, find_char, lemma_find_result, parse_u32_range, push_decimal,
    range_is, split, string_of, trim, trim_range, u32_value,
};

verus! {

broadcast use vstd::string::group_string_axioms;

// ---------------------------------------------------------------------------
// Data
// ---------------------------------------------------------------------------

/// A password composition policy.
#[derive(Debug, Clone, PartialEq, Eq)]
pub struct PasswordPolicy {
    pub min_length: u32,
    pub max_length: Option<u32>,
    pub require_upper: bool,
    pub require_lower: bool,
    pub require_digit: bool,
    pub require_symbol: bool,
    pub max_repeated_chars: Option<u32>,
    pub min_unique_chars: Option<u32>,
}

/// The policy that parsing starts from: fields a file does not mention keep
/// these values.
pub open spec fn default_policy() -> PasswordPolicy {
    PasswordPolicy {
        min_length: 8,
        max_length: None,
        require_upper: false,
        require_lower: false,
        require_digit: false,
        require_symbol: false,
        max_repeated_chars: None,
        min_unique_chars: None,
    }
}

impl Default for PasswordPolicy {
    fn default() -> (p: Self)
        ensures
            p == default_policy(),
    {
        PasswordPolicy {
            min_length: 8,
            max_length: None,
            require_upper: false,
            require_lower: false,
            require_digit: false,
            require_symbol: false,
            max_repeated_chars: None,
            min_unique_chars: None,
        }
    }
}

/// Why a policy text was rejected.
#[derive(Debug, Clone, PartialEq, Eq)]
pub enum PolicyError {
    UnknownKey(String),
    MissingValue(String),
    InvalidValue { key: String, value: String },
    MissingRequiredField(&'static str),
    /// JSON input that is not a flat object of `"name": value` members.
    MalformedJson(String),
}

/// A `PolicyError` with its strings taken as character sequences.
pub enum PolicyErrorView {
    UnknownKey(Seq<char>),
    MissingValue(Seq<char>),
    InvalidValue { key: Seq<char>, value: Seq<char> },
    MissingRequiredField(Seq<char>),
    MalformedJson(Seq<char>),
}

impl View for PolicyError {
    type V = PolicyErrorView;

    open spec fn view(&self) -> PolicyErrorView {
        match self {
            PolicyError::UnknownKey(k) => PolicyErrorView::UnknownKey(k@),
            PolicyError::MissingValue(k) => PolicyErrorView::MissingValue(k@),
            PolicyError::InvalidValue { key, value } => PolicyErrorView::InvalidValue {
                key: key@,
                value: value@,
            },
            PolicyError::MissingRequiredField(name) => PolicyErrorView::MissingRequiredField(name@),
            PolicyError::MalformedJson(text) => PolicyErrorView::MalformedJson(text@),
        }
    }
}

/// The text that describes an error to a user.
pub open spec fn error_message(e: PolicyErrorView) -> Seq<char> {
    match e {
        PolicyErrorView::UnknownKey(k) => "unknown key '"@ + k + "'"@,
        PolicyErrorView::MissingValue(k) => "key '"@ + k + "' has no value"@,
        PolicyErrorView::InvalidValue { key, value } => "invalid value '"@ + value
            + "' for key '"@ + key + "'"@,
        PolicyErrorView::MissingRequiredField(name) => "missing required field '"@ + name
            + "'"@,
        PolicyErrorView::MalformedJson(text) => "malformed JSON '"@ + text + "'"@,
    }
}

impl PolicyError {
    /// The message shown for this error.
    pub fn message(&self) -> (m: String)
        ensures
            m@ == error_message(self@),
    {
        match self {
            PolicyError::UnknownKey(key) => {
                let mut m = String::from_str("unknown key '");
                m.append(key.as_str());
                m.append("'");
                m
            },
            PolicyError::MissingValue(key) => {
                let mut m = String::from_str("key '");
                m.append(key.as_str());
                m.append("' has no value");
                m
            },
            PolicyError::InvalidValue { key, value } => {
                let mut m = String::from_str("invalid value '");
                m.append(value.as_str());
                m.append("' for key '");
                m.append(key.as_str());
                m.append("'");
                m
            },
            PolicyError::MissingRequiredField(name) => {
                let mut m = String::from_str("missing required field '");
                m.append(name);
                m.append("'");
                m
            },
            PolicyError::MalformedJson(text) => {
                let mut m = String::from_str("malformed JSON '");
                m.append(text.as_str());
                m.append("'");
                m
            },
        }
    }
}

/// The two policy formats.
#[derive(Clone, Copy, Debug, PartialEq, Eq)]
pub enum Format {
    /// One `key=value` directive per line; blank lines and `#` comments skipped.
    Rules,
    /// `key=value` pairs joined by `&`.
    Query,
}

/// The fields of a policy, in the order both formats write them.
#[derive(Clone, Copy, Debug, PartialEq, Eq)]
pub enum Field {
    MinLength,
    MaxLength,
    RequireUpper,
    RequireLower,
    RequireDigit,
    RequireSymbol,
    MaxRepeatedChars,
    MinUniqueChars,
}

// ---------------------------------------------------------------------------
// Specification of the formats
// ---------------------------------------------------------------------------

pub open spec fn separator(fmt: Format) -> char {
    match fmt {
        Format::Rules => '\n',
        Format::Query => '&',
    }
}

/// The key under which a format stores a field.
pub open spec fn key_name(fmt: Format, f: Field) -> Seq<char> {
    match fmt {
        Format::Rules => match f {
            Field::MinLength => "min_length"@,
            Field::MaxLength => "max_length"@,
            Field::RequireUpper => "require_upper"@,
            Field::RequireLower => "require_lower"@,
            Field::RequireDigit => "require_digit"@,
            Field::RequireSymbol => "require_symbol"@,
            Field::MaxRepeatedChars => "max_repeated_chars"@,
            Field::MinUniqueChars => "min_unique_chars"@,
        },
        Format::Query => match f {
            Field::MinLength => "minLength"@,
            Field::MaxLength => "maxLength"@,
            Field::RequireUpper => "upper"@,
            Field::RequireLower => "lower"@,
            Field::RequireDigit => "digit"@,
            Field::RequireSymbol => "symbol"@,
            Field::MaxRepeatedChars => "maxRepeat"@,
            Field::MinUniqueChars => "minUnique"@,
        },
    }
}

/// The field a key names in a format, if any.
pub open spec fn key_field(fmt: Format, key: Seq<char>) -> Option<Field> {
    if key == key_name(fmt, Field::MinLength) {
        Some(Field::MinLength)
    } else if key == key_name(fmt, Field::MaxLength) {
        Some(Field::MaxLength)
    } else if key == key_name(fmt, Field::RequireUpper) {
        Some(Field::RequireUpper)
    } else if key == key_name(fmt, Field::RequireLower) {
        Some(Field::RequireLower)
    } else if key == key_name(fmt, Field::RequireDigit) {
        Some(Field::RequireDigit)
    } else if key == key_name(fmt, Field::RequireSymbol) {
        Some(Field::RequireSymbol)
    } else if key == key_name(fmt, Field::MaxRepeatedChars) {
        Some(Field::MaxRepeatedChars)
    } else if key == key_name(fmt, Field::MinUniqueChars) {
        Some(Field::MinUniqueChars)
    } else {
        None
    }
}

/// Boolean values: `true`/`1` and `false`/`0`.
pub open spec fn bool_value(s: Seq<char>) -> Option<bool> {
    if s == "true"@ || s == "1"@ {
        Some(true)
    } else if s == "false"@ || s == "0"@ {
        Some(false)
    } else {
        None
    }
}

/// Splits `pair` at the first `sep` into a trimmed key and a trimmed value;
/// a missing or empty value is an error naming the key.
pub open spec fn split_pair(pair: Seq<char>, sep: char) -> Result<
    (Seq<char>, Seq<char>),
    PolicyErrorView,
> {
    match find(pair, sep) {
        None => Err(PolicyErrorView::MissingValue(trim(pair))),
        Some(i) => {
            let key = trim(pair.take(i));
            let value = trim(pair.skip(i + 1));
            if value.len() == 0 {
                Err(PolicyErrorView::MissingValue(key))
            } else {
                Ok((key, value))
            }
        },
    }
}

/// Sets field `f` of `p` from the text `value`.
pub open spec fn apply_field(p: PasswordPolicy, f: Field, key: Seq<char>, value: Seq<char>) -> Result<
    PasswordPolicy,
    PolicyErrorView,
> {
    let bad = PolicyErrorView::InvalidValue { key, value };
    match f {
        Field::MinLength => match u32_value(value) {
            Some(n) => Ok(PasswordPolicy { min_length: n, ..p }),
            None => Err(bad),
        },
        Field::MaxLength => match u32_value(value) {
            Some(n) => Ok(PasswordPolicy { max_length: Some(n), ..p }),
            None => Err(bad),
        },
        Field::RequireUpper => match bool_value(value) {
            Some(b) => Ok(PasswordPolicy { require_upper: b, ..p }),
            None => Err(bad),
        },
        Field::RequireLower => match bool_value(value) {
            Some(b) => Ok(PasswordPolicy { require_lower: b, ..p }),
            None => Err(bad),
        },
        Field::RequireDigit => match bool_value(value) {
            Some(b) => Ok(PasswordPolicy { require_digit: b, ..p }),
            None => Err(bad),
        },
        Field::RequireSymbol => match bool_value(value) {
            Some(b) => Ok(PasswordPolicy { require_symbol: b, ..p }),
            None => Err(bad),
        },
        Field::MaxRepeatedChars => match u32_value(value) {
            Some(n) => Ok(PasswordPolicy { max_repeated_chars: Some(n), ..p }),
            None => Err(bad),
        },
        Field::MinUniqueChars => match u32_value(value) {
            Some(n) => Ok(PasswordPolicy { min_unique_chars: Some(n), ..p }),
            None => Err(bad),
        },
    }
}

/// The parser's state between entries: the policy so far, and whether the
/// minimum length has been given.
pub struct ParseState {
    pub policy: PasswordPolicy,
    pub min_length_seen: bool,
}

pub open spec fn initial_state() -> ParseState {
    ParseState { policy: default_policy(), min_length_seen: false }
}

/// Applies one `key=value` entry.
pub open spec fn apply_entry(fmt: Format, st: ParseState, entry: Seq<char>) -> Result<
    ParseState,
    PolicyErrorView,
> {
    match split_pair(entry, '=') {
        Err(e) => Err(e),
        Ok((key, value)) => match key_field(fmt, key) {
            None => Err(PolicyErrorView::UnknownKey(key)),
            Some(f) => match apply_field(st.policy, f, key, value) {
                Err(e) => Err(e),
                Ok(p) => Ok(
                    ParseState {
                        policy: p,
                        min_length_seen: st.min_length_seen || f == Field::MinLength,
                    },
                ),
            },
        },
    }
}

/// A rules line that carries no directive: blank, or a `#` comment.
pub open spec fn is_skipped_line(line: Seq<char>) -> bool {
    trim(line).len() == 0 || trim(line)[0] == '#'
}

/// Processes one piece of the input (a line of a rules file, a pair of a
/// query string).
pub open spec fn step(fmt: Format, st: ParseState, piece: Seq<char>) -> Result<
    ParseState,
    PolicyErrorView,
> {
    match fmt {
        Format::Rules => if is_skipped_line(piece) {
            Ok(st)
        } else {
            apply_entry(fmt, st, trim(piece))
        },
        Format::Query => apply_entry(fmt, st, piece),
    }
}

/// Processes the pieces in order, stopping at the first error.
pub open spec fn run(fmt: Format, pieces: Seq<Seq<char>>, st: ParseState) -> Result<
    ParseState,
    PolicyErrorView,
>
    decreases pieces.len(),
{
    if pieces.len() == 0 {
        Ok(st)
    } else {
        match step(fmt, st, pieces[0]) {
            Err(e) => Err(e),
            Ok(st2) => run(fmt, pieces.drop_first(), st2),
        }
    }
}

/// The name under which a format reports a missing minimum length.
pub open spec fn required_name(fmt: Format) -> Seq<char> {
    match fmt {
        Format::Rules => "min_length"@,
        Format::Query => "minLength"@,
    }
}

/// Parses the pieces of a text of format `fmt` split at its separator.
pub open spec fn parse_pieces(fmt: Format, body: Seq<char>) -> Result<
    PasswordPolicy,
    PolicyErrorView,
> {
    match run(fmt, split(body, separator(fmt)), initial_state()) {
        Err(e) => Err(e),
        Ok(st) => if st.min_length_seen {
            Ok(st.policy)
        } else {
            Err(PolicyErrorView::MissingRequiredField(required_name(fmt)))
        },
    }
}

/// What `parse_rules` gives for a text.
pub open spec fn spec_parse_rules(input: Seq<char>) -> Result<PasswordPolicy, PolicyErrorView> {
    parse_pieces(Format::Rules, input)
}

/// What `parse_query` gives for a text: the trimmed text, split at `&`.
pub open spec fn spec_parse_query(input: Seq<char>) -> Result<PasswordPolicy, PolicyErrorView> {
    if trim(input).len() == 0 {
        Err(PolicyErrorView::MissingRequiredField("minLength"@))
    } else {
        parse_pieces(Format::Query, trim(input))
    }
}

/// A result with its error taken by its view.
pub open spec fn outcome<T>(r: Result<T, PolicyError>) -> Result<T, PolicyErrorView> {
    match r {
        Ok(t) => Ok(t),
        Err(e) => Err(e@),
    }
}

/// How a format writes a boolean.
pub open spec fn flag_text(fmt: Format, b: bool) -> Seq<char> {
    match fmt {
        Format::Rules => if b {
            "true"@
        } else {
            "false"@
        },
        Format::Query => if b {
            "1"@
        } else {
            "0"@
        },
    }
}

/// The text a format writes for field `f` of `p`; `None` for an absent
/// optional field, which is left out.
pub open spec fn field_text(fmt: Format, f: Field, p: PasswordPolicy) -> Option<Seq<char>> {
    let number = |o: Option<u32>|
        match o {
            Some(n) => Some(decimal(n as nat)),
            None => None,
        };
    match f {
        Field::MinLength => Some(decimal(p.min_length as nat)),
        Field::MaxLength => number(p.max_length),
        Field::RequireUpper => Some(flag_text(fmt, p.require_upper)),
        Field::RequireLower => Some(flag_text(fmt, p.require_lower)),
        Field::RequireDigit => Some(flag_text(fmt, p.require_digit)),
        Field::RequireSymbol => Some(flag_text(fmt, p.require_symbol)),
        Field::MaxRepeatedChars => number(p.max_repeated_chars),
        Field::MinUniqueChars => number(p.min_unique_chars),
    }
}

/// The fields in writing order.
pub open spec fn field_at(i: int) -> Field {
    if i <= 0 {
        Field::MinLength
    } else if i == 1 {
        Field::MaxLength
    } else if i == 2 {
        Field::RequireUpper
    } else if i == 3 {
        Field::RequireLower
    } else if i == 4 {
        Field::RequireDigit
    } else if i == 5 {
        Field::RequireSymbol
    } else if i == 6 {
        Field::MaxRepeatedChars
    } else {
        Field::MinUniqueChars
    }
}

/// The `key=value` entry for field `f`, as a sequence of zero or one entries.
pub open spec fn entry_for(fmt: Format, f: Field, p: PasswordPolicy) -> Seq<Seq<char>> {
    match field_text(fmt, f, p) {
        Some(t) => seq![key_name(fmt, f) + seq!['='] + t],
        None => Seq::empty(),
    }
}

/// The entries for the first `k` fields.
pub open spec fn entries_upto(fmt: Format, p: PasswordPolicy, k: int) -> Seq<Seq<char>>
    decreases k,
{
    if k <= 0 {
        Seq::empty()
    } else {
        entries_upto(fmt, p, k - 1) + entry_for(fmt, field_at(k - 1), p)
    }
}

/// All entries of a policy, in writing order.
pub open spec fn entries(fmt: Format, p: PasswordPolicy) -> Seq<Seq<char>> {
    entries_upto(fmt, p, 8)
}

/// The pieces joined, with `sep` between neighbours.
pub open spec fn join(pieces: Seq<Seq<char>>, sep: char) -> Seq<char>
    decreases pieces.len(),
{
    if pieces.len() == 0 {
        Seq::empty()
    } else if pieces.len() == 1 {
        pieces[0]
    } else {
        pieces[0] + seq![sep] + join(pieces.drop_first(), sep)
    }
}

/// A policy written in format `fmt`.
pub open spec fn render(fmt: Format, p: PasswordPolicy) -> Seq<char> {
    join(entries(fmt, p), separator(fmt))
}

/// Appending a piece to a nonempty list of pieces adds a separator and it.
pub proof fn lemma_join_push(pieces: Seq<Seq<char>>, sep: char, x: Seq<char>)
    ensures
        join(pieces.push(x), sep) == (if pieces.len() == 0 {
            x
        } else {
            join(pieces, sep) + seq![sep] + x
        }),
    decreases pieces.len(),
{
    let q = pieces.push(x);
    if pieces.len() == 0 {
        assert(q.len() == 1 && q[0] == x);
    } else if pieces.len() == 1 {
        assert(q.drop_first() =~= seq![x]);
        assert(join(q.drop_first(), sep) == x);
        assert(q[0] == pieces[0]);
    } else {
        assert(q.drop_first() =~= pieces.drop_first().push(x));
        lemma_join_push(pieces.drop_first(), sep, x);
        assert(q[0] == pieces[0]);
        assert(join(q, sep) =~= join(pieces, sep) + seq![sep] + x);
    }
}

// ---------------------------------------------------------------------------
// Parsing
// ---------------------------------------------------------------------------

/// The separator character of a format.
fn separator_char(fmt: Format) -> (c: char)
    ensures
        c == separator(fmt),
{
    match fmt {
        Format::Rules => '\n',
        Format::Query => '&',
    }
}

/// The key under which a format stores a field.
pub(crate) fn key_text(fmt: Format, f: Field) -> (s: &'static str)
    ensures
        s@ == key_name(fmt, f),
{
    match fmt {
        Format::Rules => match f {
            Field::MinLength => "min_length",
            Field::MaxLength => "max_length",
            Field::RequireUpper => "require_upper",
            Field::RequireLower => "require_lower",
            Field::RequireDigit => "require_digit",
            Field::RequireSymbol => "require_symbol",
            Field::MaxRepeatedChars => "max_repeated_chars",
            Field::MinUniqueChars => "min_unique_chars",
        },
        Format::Query => match f {
            Field::MinLength => "minLength",
            Field::MaxLength => "maxLength",
            Field::RequireUpper => "upper",
            Field::RequireLower => "lower",
            Field::RequireDigit => "digit",
            Field::RequireSymbol => "symbol",
            Field::MaxRepeatedChars => "maxRepeat",
            Field::MinUniqueChars => "minUnique",
        },
    }
}

/// The field named by the key `v[lo..hi]`.
pub(crate) fn lookup_field(fmt: Format, v: &Vec<char>, lo: usize, hi: usize) -> (r: Option<Field>)
    requires
        lo <= hi <= v.len(),
    ensures
        r == key_field(fmt, v@.subrange(lo as int, hi as int)),
{
    if range_is(v, lo, hi, key_text(fmt, Field::MinLength)) {
        Some(Field::MinLength)
    } else if range_is(v, lo, hi, key_text(fmt, Field::MaxLength)) {
        Some(Field::MaxLength)
    } else if range_is(v, lo, hi, key_text(fmt, Field::RequireUpper)) {
        Some(Field::RequireUpper)
    } else if range_is(v, lo, hi, key_text(fmt, Field::RequireLower)) {
        Some(Field::RequireLower)
    } else if range_is(v, lo, hi, key_text(fmt, Field::RequireDigit)) {
        Some(Field::RequireDigit)
    } else if range_is(v, lo, hi, key_text(fmt, Field::RequireSymbol)) {
        Some(Field::RequireSymbol)
    } else if range_is(v, lo, hi, key_text(fmt, Field::MaxRepeatedChars)) {
        Some(Field::MaxRepeatedChars)
    } else if range_is(v, lo, hi, key_text(fmt, Field::MinUniqueChars)) {
        Some(Field::MinUniqueChars)
    } else {
        None
    }
}

/// The error for a value that a key does not accept.
fn invalid_value(v: &Vec<char>, klo: usize, khi: usize, vlo: usize, vhi: usize) -> (e: PolicyError)
    requires
        klo <= khi <= v.len(),
        vlo <= vhi <= v.len(),
    ensures
        e@ == (PolicyErrorView::InvalidValue {
            key: v@.subrange(klo as int, khi as int),
            value: v@.subrange(vlo as int, vhi as int),
        }),
{
    PolicyError::InvalidValue { key: string_of(v, klo, khi), value: string_of(v, vlo, vhi) }
}

/// Reads the value `v[vlo..vhi]` of key `v[klo..khi]` as a boolean.
fn parse_bool(v: &Vec<char>, klo: usize, khi: usize, vlo: usize, vhi: usize) -> (r: Result<
    bool,
    PolicyError,
>)
    requires
        klo <= khi <= v.len(),
        vlo <= vhi <= v.len(),
    ensures
        outcome(r) == (match bool_value(v@.subrange(vlo as int, vhi as int)) {
            Some(b) => Ok(b),
            None => Err(
                PolicyErrorView::InvalidValue {
                    key: v@.subrange(klo as int, khi as int),
                    value: v@.subrange(vlo as int, vhi as int),
                },
            ),
        }),
{
    if range_is(v, vlo, vhi, "true") || range_is(v, vlo, vhi, "1") {
        Ok(true)
    } else if range_is(v, vlo, vhi, "false") || range_is(v, vlo, vhi, "0") {
        Ok(false)
    } else {
        Err(invalid_value(v, klo, khi, vlo, vhi))
    }
}

/// Reads the value `v[vlo..vhi]` of key `v[klo..khi]` as a `u32`.
fn parse_u32(v: &Vec<char>, klo: usize, khi: usize, vlo: usize, vhi: usize) -> (r: Result<
    u32,
    PolicyError,
>)
    requires
        klo <= khi <= v.len(),
        vlo <= vhi <= v.len(),
    ensures
        outcome(r) == (match u32_value(v@.subrange(vlo as int, vhi as int)) {
            Some(n) => Ok(n),
            None => Err(
                PolicyErrorView::InvalidValue {
                    key: v@.subrange(klo as int, khi as int),
                    value: v@.subrange(vlo as int, vhi as int),
                },
            ),
        }),
{
    match parse_u32_range(v, vlo, vhi) {
        Some(n) => Ok(n),
        None => Err(invalid_value(v, klo, khi, vlo, vhi)),
    }
}

/// Splits `v[lo..hi]` at the first `sep` into the ranges of the trimmed key
/// and the trimmed value.
fn split_key_value(v: &Vec<char>, lo: usize, hi: usize, sep: char) -> (r: Result<
    (usize, usize, usize, usize),
    PolicyError,
>)
    requires
        lo <= hi <= v.len(),
    ensures
        r matches Ok((klo, khi, vlo, vhi)) ==> klo <= khi <= v.len() && vlo <= vhi <= v.len()
            && split_pair(v@.subrange(lo as int, hi as int), sep) == Ok::<_, PolicyErrorView>(
            (v@.subrange(klo as int, khi as int), v@.subrange(vlo as int, vhi as int)),
        ),
        r matches Err(e) ==> split_pair(v@.subrange(lo as int, hi as int), sep) == Err::<
            (Seq<char>, Seq<char>),
            _,
        >(e@),
{
    let ghost pair = v@.subrange(lo as int, hi as int);
    match find_char(v, lo, hi, sep) {
        None => {
            let (a, b) = trim_range(v, lo, hi);
            Err(PolicyError::MissingValue(string_of(v, a, b)))
        },
        Some(i) => {
            assert(pair.take(i - lo) =~= v@.subrange(lo as int, i as int));
            assert(pair.skip(i - lo + 1) =~= v@.subrange(i + 1, hi as int));
            let (klo, khi) = trim_range(v, lo, i);
            let (vlo, vhi) = trim_range(v, i + 1, hi);
            if vlo == vhi {
                Err(PolicyError::MissingValue(string_of(v, klo, khi)))
            } else {
                Ok((klo, khi, vlo, vhi))
            }
        },
    }
}

/// Sets field `f` of `policy` from the value `v[vlo..vhi]` of key `v[klo..khi]`.
fn set_field(
    policy: &mut PasswordPolicy,
    f: Field,
    v: &Vec<char>,
    klo: usize,
    khi: usize,
    vlo: usize,
    vhi: usize,
) -> (r: Result<(), PolicyError>)
    requires
        klo <= khi <= v.len(),
        vlo <= vhi <= v.len(),
    ensures
        match apply_field(
            *old(policy),
            f,
            v@.subrange(klo as int, khi as int),
            v@.subrange(vlo as int, vhi as int),
        ) {
            Ok(p) => r is Ok && *final(policy) == p,
            Err(e) => r matches Err(x) && x@ == e,
        },
{
    match f {
        Field::MinLength => {
            policy.min_length = parse_u32(v, klo, khi, vlo, vhi)?;
        },
        Field::MaxLength => {
            policy.max_length = Some(parse_u32(v, klo, khi, vlo, vhi)?);
        },
        Field::RequireUpper => {
            policy.require_upper = parse_bool(v, klo, khi, vlo, vhi)?;
        },
        Field::RequireLower => {
            policy.require_lower = parse_bool(v, klo, khi, vlo, vhi)?;
        },
        Field::RequireDigit => {
            policy.require_digit = parse_bool(v, klo, khi, vlo, vhi)?;
        },
        Field::RequireSymbol => {
            policy.require_symbol = parse_bool(v, klo, khi, vlo, vhi)?;
        },
        Field::MaxRepeatedChars => {
            policy.max_repeated_chars = Some(parse_u32(v, klo, khi, vlo, vhi)?);
        },
        Field::MinUniqueChars => {
            policy.min_unique_chars = Some(parse_u32(v, klo, khi, vlo, vhi)?);
        },
    }
    Ok(())
}

/// Applies the entry `v[lo..hi]` to the parser state.
fn entry_into(
    fmt: Format,
    v: &Vec<char>,
    lo: usize,
    hi: usize,
    policy: &mut PasswordPolicy,
    seen: &mut bool,
) -> (r: Result<(), PolicyError>)
    requires
        lo <= hi <= v.len(),
    ensures
        match apply_entry(
            fmt,
            ParseState { policy: *old(policy), min_length_seen: *old(seen) },
            v@.subrange(lo as int, hi as int),
        ) {
            Ok(st) => r is Ok && *final(policy) == st.policy && *final(seen) == st.min_length_seen,
            Err(e) => r matches Err(x) && x@ == e,
        },
{
    let (klo, khi, vlo, vhi) = split_key_value(v, lo, hi, '=')?;
    match lookup_field(fmt, v, klo, khi) {
        None => Err(PolicyError::UnknownKey(string_of(v, klo, khi))),
        Some(f) => {
            set_field(policy, f, v, klo, khi, vlo, vhi)?;
            if let Field::MinLength = f {
                *seen = true;
            }
            Ok(())
        },
    }
}

/// Processes the piece `v[lo..hi]` of a text of format `fmt`.
fn step_into(
    fmt: Format,
    v: &Vec<char>,
    lo: usize,
    hi: usize,
    policy: &mut PasswordPolicy,
    seen: &mut bool,
) -> (r: Result<(), PolicyError>)
    requires
        lo <= hi <= v.len(),
    ensures
        match step(
            fmt,
            ParseState { policy: *old(policy), min_length_seen: *old(seen) },
            v@.subrange(lo as int, hi as int),
        ) {
            Ok(st) => r is Ok && *final(policy) == st.policy && *final(seen) == st.min_length_seen,
            Err(e) => r matches Err(x) && x@ == e,
        },
{
    match fmt {
        Format::Rules => {
            let (a, b) = trim_range(v, lo, hi);
            if a == b || v[a] == '#' {
                Ok(())
            } else {
                entry_into(fmt, v, a, b, policy, seen)
            }
        },
        Format::Query => entry_into(fmt, v, lo, hi, policy, seen),
    }
}

/// Parses `v[lo..hi]`, split at the separator of `fmt`.
fn parse_range(fmt: Format, v: &Vec<char>, lo: usize, hi: usize) -> (r: Result<
    PasswordPolicy,
    PolicyError,
>)
    requires
        lo <= hi <= v.len(),
    ensures
        outcome(r) == parse_pieces(fmt, v@.subrange(lo as int, hi as int)),
{
    let sep = separator_char(fmt);
    let mut policy = PasswordPolicy::default();
    let mut seen = false;
    let mut pos = lo;
    let ghost total = run(fmt, split(v@.subrange(lo as int, hi as int), sep), initial_state());
    loop
        invariant_except_break
            total == run(
                fmt,
                split(v@.subrange(pos as int, hi as int), sep),
                ParseState { policy: policy, min_length_seen: seen },
            ),
        invariant
            lo <= pos <= hi <= v.len(),
            sep == separator(fmt),
            total == run(fmt, split(v@.subrange(lo as int, hi as int), sep), initial_state()),
        ensures
            total == Ok::<_, PolicyErrorView>(ParseState { policy: policy, min_length_seen: seen }),
        decreases hi - pos,
    {
        let ghost rest = v@.subrange(pos as int, hi as int);
        let ghost st = ParseState { policy: policy, min_length_seen: seen };
        let found = find_char(v, pos, hi, sep);
        let end = match found {
            Some(i) => i,
            None => hi,
        };
        let ghost pieces = split(rest, sep);
        proof {
            lemma_find_result(rest, sep);
            match found {
                Some(i) => {
                    assert(rest.take(i - pos) =~= v@.subrange(pos as int, i as int));
                    assert(rest.skip(i - pos + 1) =~= v@.subrange(i + 1, hi as int));
                    assert(pieces == seq![v@.subrange(pos as int, end as int)] + split(
                        v@.subrange(i + 1, hi as int),
                        sep,
                    ));
                    assert(pieces.drop_first() =~= split(v@.subrange(i + 1, hi as int), sep));
                },
                None => {
                    assert(pieces == seq![v@.subrange(pos as int, end as int)]);
                },
            }
            assert(pieces[0] == v@.subrange(pos as int, end as int));
        }
        match step_into(fmt, v, pos, end, &mut policy, &mut seen) {
            Err(e) => {
                return Err(e);
            },
            Ok(()) => {},
        }
        if end == hi {
            proof {
                assert(pieces.drop_first().len() == 0);
                assert(run(
                    fmt,
                    pieces.drop_first(),
                    ParseState { policy: policy, min_length_seen: seen },
                ) == Ok::<_, PolicyErrorView>(ParseState { policy: policy, min_length_seen: seen }));
            }
            break ;
        }
        pos = end + 1;
    }
    if seen {
        Ok(policy)
    } else {
        match fmt {
            Format::Rules => Err(PolicyError::MissingRequiredField("min_length")),
            Format::Query => Err(PolicyError::MissingRequiredField("minLength")),
        }
    }
}

/// Parses the line-based rules format:
///
/// ```text
/// min_length=12
/// max_length=64
/// require_upper=true
/// require_lower=true
/// require_digit=true
/// require_symbol=false
/// max_repeated_chars=3
/// min_unique_chars=6
/// ```
///
/// Blank lines and lines starting with `#` are ignored.
pub fn parse_rules(input: &str) -> (r: Result<PasswordPolicy, PolicyError>)
    ensures
        outcome(r) == spec_parse_rules(input@),
{
    let v = chars_of(input);
    assert(v@.subrange(0, v@.len() as int) =~= v@);
    parse_range(Format::Rules, &v, 0, v.len())
}

/// Parses the query-string format used by the old form validator:
///
/// ```text
/// minLength=12&maxLength=64&upper=1&lower=1&digit=1&symbol=0&maxRepeat=3&minUnique=6
/// ```
pub fn parse_query(input: &str) -> (r: Result<PasswordPolicy, PolicyError>)
    ensures
        outcome(r) == spec_parse_query(input@),
{
    let v = chars_of(input);
    assert(v@.subrange(0, v@.len() as int) =~= v@);
    let (a, b) = trim_range(&v, 0, v.len());
    if a == b {
        return Err(PolicyError::MissingRequiredField("minLength"));
    }
    parse_range(Format::Query, &v, a, b)
}

// ---------------------------------------------------------------------------
// Rendering
// ---------------------------------------------------------------------------

/// The query-string spelling of a boolean.
fn bool_flag(value: bool) -> (s: &'static str)
    ensures
        s@ == flag_text(Format::Query, value),
        bool_value(s@) == Some(value),
{
    proof {
        crate::laws::law_flag_read_back(Format::Query, value);
    }
    if value {
        "1"
    } else {
        "0"
    }
}

/// The way `fmt` spells a boolean.
fn flag_str(fmt: Format, value: bool) -> (s: &'static str)
    ensures
        s@ == flag_text(fmt, value),
        bool_value(s@) == Some(value),
{
    proof {
        crate::laws::law_flag_read_back(fmt, value);
    }
    match fmt {
        Format::Rules => if value {
            "true"
        } else {
            "false"
        },
        Format::Query => bool_flag(value),
    }
}

/// The separator of a format, as a string.
fn separator_str(fmt: Format) -> (s: &'static str)
    ensures
        s@ == seq![separator(fmt)],
{
    proof {
        reveal_strlit("\n");
        reveal_strlit("&");
    }
    match fmt {
        Format::Rules => "\n",
        Format::Query => "&",
    }
}

/// The field at position `i` of the writing order.
pub(crate) fn field_at_index(i: usize) -> (f: Field)
    ensures
        f == field_at(i as int),
{
    if i == 0 {
        Field::MinLength
    } else if i == 1 {
        Field::MaxLength
    } else if i == 2 {
        Field::RequireUpper
    } else if i == 3 {
        Field::RequireLower
    } else if i == 4 {
        Field::RequireDigit
    } else if i == 5 {
        Field::RequireSymbol
    } else if i == 6 {
        Field::MaxRepeatedChars
    } else {
        Field::MinUniqueChars
    }
}

/// Appends the value text of field `f` of `p`, if the field is present.
pub(crate) fn push_field_text(out: &mut String, fmt: Format, f: Field, p: &PasswordPolicy) -> (present: bool)
    ensures
        match field_text(fmt, f, *p) {
            Some(t) => present && final(out)@ == old(out)@ + t,
            None => !present && final(out)@ == old(out)@,
        },
{
    let number = match f {
        Field::MinLength => Some(p.min_length),
        Field::MaxLength => p.max_length,
        Field::MaxRepeatedChars => p.max_repeated_chars,
        Field::MinUniqueChars => p.min_unique_chars,
        Field::RequireUpper => {
            out.append(flag_str(fmt, p.require_upper));
            return true;
        },
        Field::RequireLower => {
            out.append(flag_str(fmt, p.require_lower));
            return true;
        },
        Field::RequireDigit => {
            out.append(flag_str(fmt, p.require_digit));
            return true;
        },
        Field::RequireSymbol => {
            out.append(flag_str(fmt, p.require_symbol));
            return true;
        },
    };
    match number {
        Some(n) => {
            push_decimal(out, n);
            true
        },
        None => false,
    }
}

/// Writes `p` in format `fmt`.
fn render_policy(fmt: Format, p: &PasswordPolicy) -> (s: String)
    ensures
        s@ == render(fmt, *p),
{
    let sep = separator_str(fmt);
    let mut out = String::new();
    let mut i: usize = 0;
    let mut written: usize = 0;
    while i < 8
        invariant
            i <= 8,
            written <= i,
            sep@ == seq![separator(fmt)],
            written == entries_upto(fmt, *p, i as int).len(),
            out@ == join(entries_upto(fmt, *p, i as int), separator(fmt)),
        decreases 8 - i,
    {
        let f = field_at_index(i);
        let ghost before = entries_upto(fmt, *p, i as int);
        let ghost old_out = out@;
        let mut entry = String::from_str(key_text(fmt, f));
        entry.append("=");
        let present = push_field_text(&mut entry, fmt, f, p);
        if present {
            if written > 0 {
                out.append(sep);
            }
            out.append(entry.as_str());
            written = written + 1;
        }
        proof {
            reveal_strlit("=");
            let after = entries_upto(fmt, *p, i + 1);
            match field_text(fmt, f, *p) {
                Some(t) => {
                    let e = key_name(fmt, f) + seq!['='] + t;
                    assert(entry@ =~= e);
                    assert(after =~= before.push(e));
                    lemma_join_push(before, separator(fmt), e);
                    if before.len() == 0 {
                        assert(old_out =~= Seq::<char>::empty());
                        assert(out@ =~= e);
                    } else {
                        assert(out@ =~= old_out + seq![separator(fmt)] + e);
                    }
                    assert(out@ =~= join(after, separator(fmt)));
                },
                None => {
                    assert(after =~= before);
                },
            }
        }
        i = i + 1;
    }
    out
}

/// Renders a policy back into the line-based rules format.
pub fn to_rules(policy: &PasswordPolicy) -> (s: String)
    ensures
        s@ == render(Format::Rules, *policy),
{
    render_policy(Format::Rules, policy)
}

/// Renders a policy back into the query-string format.
pub fn to_query(policy: &PasswordPolicy) -> (s: String)
    ensures
        s@ == render(Format::Query, *policy),
{
    render_policy(Format::Query, policy)
}

/// Convenience wrapper: rules text in, query text out.
pub fn convert_rules_to_query(input: &str) -> (r: Result<String, PolicyError>)
    ensures
        match spec_parse_rules(input@) {
            Ok(p) => r matches Ok(s) && s@ == render(Format::Query, p),
            Err(e) => r matches Err(x) && x@ == e,
        },
{
    match parse_rules(input) {
        Ok(policy) => Ok(to_query(&policy)),
        Err(e) => Err(e),
    }
}

/// Convenience wrapper: query text in, rules text out.
pub fn convert_query_to_rules(input: &str) -> (r: Result<String, PolicyError>)
    ensures
        match spec_parse_query(input@) {
            Ok(p) => r matches Ok(s) && s@ == render(Format::Rules, p),
            Err(e) => r matches Err(x) && x@ == e,
        },
{
    match parse_query(input) {
        Ok(policy) => Ok(to_rules(&policy)),
        Err(e) => Err(e),
    }
}

// ---------------------------------------------------------------------------
// Validation
// ---------------------------------------------------------------------------

/// How many character classes (upper, lower, digit, symbol) a policy requires.
pub open spec fn class_count(p: PasswordPolicy) -> nat {
    (if p.require_upper { 1nat } else { 0nat }) + (if p.require_lower { 1nat } else { 0nat })
        + (if p.require_digit { 1nat } else { 0nat }) + (if p.require_symbol { 1nat } else { 0nat })
}

/// The warning for a maximum length below the minimum length.
pub open spec fn length_warning(min: u32, max: u32) -> Seq<char> {
    "max_length ("@ + decimal(max as nat) + ") is less than min_length ("@ + decimal(min as nat)
        + "); no password can satisfy both"@
}

/// The warning for more required character classes than the minimum length
/// leaves room for.
pub open spec fn classes_warning(classes: nat, min: u32) -> Seq<char> {
    decimal(classes) + " character classes are required but min_length ("@ + decimal(min as nat)
        + ") is too short to fit one of each"@
}

/// The ways in which a policy contradicts itself, in reporting order.
pub open spec fn policy_warnings(p: PasswordPolicy) -> Seq<Seq<char>> {
    let length = match p.max_length {
        Some(max) => if max < p.min_length {
            seq![length_warning(p.min_length, max)]
        } else {
            Seq::empty()
        },
        None => Seq::empty(),
    };
    let classes = if class_count(p) > p.min_length {
        seq![classes_warning(class_count(p), p.min_length)]
    } else {
        Seq::empty()
    };
    length + classes
}

/// Checks a policy's fields against each other and reports each
/// contradiction it finds: a `max_length` below `min_length`, and more
/// required character classes than `min_length` leaves room for.  The
/// policy itself is left as it is.
pub fn validate(policy: &PasswordPolicy) -> (warnings: Vec<String>)
    ensures
        warnings@.map_values(|w: String| w@) == policy_warnings(*policy),
{
    let mut warnings: Vec<String> = Vec::new();
    let ghost length: Seq<Seq<char>> = Seq::empty();
    if let Some(max) = policy.max_length {
        if max < policy.min_length {
            let mut w = String::from_str("max_length (");
            push_decimal(&mut w, max);
            w.append(") is less than min_length (");
            push_decimal(&mut w, policy.min_length);
            w.append("); no password can satisfy both");
            warnings.push(w);
            proof {
                length = seq![length_warning(policy.min_length, max)];
            }
        }
    }
    assert(warnings@.map_values(|w: String| w@) =~= length);
    let mut classes: u32 = 0;
    if policy.require_upper {
        classes = classes + 1;
    }
    if policy.require_lower {
        classes = classes + 1;
    }
    if policy.require_digit {
        classes = classes + 1;
    }
    if policy.require_symbol {
        classes = classes + 1;
    }
    assert(classes == class_count(*policy));
    if classes > policy.min_length {
        let mut w = String::new();
        push_decimal(&mut w, classes);
        w.append(" character classes are required but min_length (");
        push_decimal(&mut w, policy.min_length);
        w.append(") is too short to fit one of each");
        warnings.push(w);
    }
    assert(warnings@.map_values(|w: String| w@) =~= policy_warnings(*policy));
    warnings
}

} // verus!
