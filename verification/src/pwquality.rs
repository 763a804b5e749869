//! Read-only support for PAM's `pwquality.conf` syntax.
//!
//! Only `minlen`, `maxrepeat` and the class-credit directives `dcredit`,
//! `ucredit`, `lcredit` and `ocredit` are read; every other directive
//! (`minclass`, `dictcheck`, `retry`, bare flags such as
//! `enforce_for_root`, ...) is ignored rather than rejected.  A negative
//! credit requires at least one character of its class; zero or a positive
//! credit does not.
use vstd::prelude::*;
use vstd::string::*;
use crate::text::{
    chars_of, find, find_char, i32_value, lemma_find_result, parse_i32_range, parse_u32_range,
    range_is, split, string_of, trim, trim_range, u32_value,
};
use crate::policy::{
    initial_state, render, to_query, to_rules, Format, ParseState, PasswordPolicy, PolicyError,
    PolicyErrorView,
};

verus! {

broadcast use vstd::string::group_string_axioms;

/// The directives of `pwquality.conf` that a policy is read from.
#[derive(Clone, Copy, Debug, PartialEq, Eq)]
pub enum Directive {
    MinLen,
    MaxRepeat,
    DCredit,
    UCredit,
    LCredit,
    OCredit,
}

/// The name of a directive in `pwquality.conf`.
pub open spec fn directive_name(d: Directive) -> Seq<char> {
    match d {
        Directive::MinLen => "minlen"@,
        Directive::MaxRepeat => "maxrepeat"@,
        Directive::DCredit => "dcredit"@,
        Directive::UCredit => "ucredit"@,
        Directive::LCredit => "lcredit"@,
        Directive::OCredit => "ocredit"@,
    }
}

/// The directive a key names, if it is one that is read.
pub open spec fn key_directive(key: Seq<char>) -> Option<Directive> {
    if key == directive_name(Directive::MinLen) {
        Some(Directive::MinLen)
    } else if key == directive_name(Directive::MaxRepeat) {
        Some(Directive::MaxRepeat)
    } else if key == directive_name(Directive::DCredit) {
        Some(Directive::DCredit)
    } else if key == directive_name(Directive::UCredit) {
        Some(Directive::UCredit)
    } else if key == directive_name(Directive::LCredit) {
        Some(Directive::LCredit)
    } else if key == directive_name(Directive::OCredit) {
        Some(Directive::OCredit)
    } else {
        None
    }
}

/// Applies a read directive with a nonempty value: `minlen` and `maxrepeat`
/// take a `u32`, the credits an `i32`, and a value that does not read is an
/// error naming the key.
pub open spec fn apply_directive(
    st: ParseState,
    d: Directive,
    key: Seq<char>,
    value: Seq<char>,
) -> Result<ParseState, PolicyErrorView> {
    let bad = PolicyErrorView::InvalidValue { key, value };
    let p = st.policy;
    match d {
        Directive::MinLen => match u32_value(value) {
            Some(n) => Ok(
                ParseState { policy: PasswordPolicy { min_length: n, ..p }, min_length_seen: true },
            ),
            None => Err(bad),
        },
        Directive::MaxRepeat => match u32_value(value) {
            Some(n) => Ok(
                ParseState {
                    policy: PasswordPolicy { max_repeated_chars: Some(n), ..p },
                    ..st
                },
            ),
            None => Err(bad),
        },
        Directive::DCredit => match i32_value(value) {
            Some(c) => Ok(ParseState { policy: PasswordPolicy { require_digit: c < 0, ..p }, ..st }),
            None => Err(bad),
        },
        Directive::UCredit => match i32_value(value) {
            Some(c) => Ok(ParseState { policy: PasswordPolicy { require_upper: c < 0, ..p }, ..st }),
            None => Err(bad),
        },
        Directive::LCredit => match i32_value(value) {
            Some(c) => Ok(ParseState { policy: PasswordPolicy { require_lower: c < 0, ..p }, ..st }),
            None => Err(bad),
        },
        Directive::OCredit => match i32_value(value) {
            Some(c) => Ok(
                ParseState { policy: PasswordPolicy { require_symbol: c < 0, ..p }, ..st },
            ),
            None => Err(bad),
        },
    }
}

/// Processes one line of `pwquality.conf`.  Blank lines, `#` comments, lines
/// without `=` (bare flags) and directives that are not read change nothing;
/// a read directive with an empty value is an error naming it.
pub open spec fn pwquality_step(st: ParseState, line: Seq<char>) -> Result<
    ParseState,
    PolicyErrorView,
> {
    let t = trim(line);
    if t.len() == 0 || t[0] == '#' {
        Ok(st)
    } else {
        match find(t, '=') {
            None => Ok(st),
            Some(i) => {
                let key = trim(t.take(i));
                let value = trim(t.skip(i + 1));
                match key_directive(key) {
                    None => Ok(st),
                    Some(d) => if value.len() == 0 {
                        Err(PolicyErrorView::MissingValue(key))
                    } else {
                        apply_directive(st, d, key, value)
                    },
                }
            },
        }
    }
}

/// Processes the lines in order, stopping at the first error.
pub open spec fn pwquality_run(lines: Seq<Seq<char>>, st: ParseState) -> Result<
    ParseState,
    PolicyErrorView,
>
    decreases lines.len(),
{
    if lines.len() == 0 {
        Ok(st)
    } else {
        match pwquality_step(st, lines[0]) {
            Err(e) => Err(e),
            Ok(st2) => pwquality_run(lines.drop_first(), st2),
        }
    }
}

/// What `parse_pwquality` gives for a text: its lines read in order from the
/// default policy; a file without `minlen` is an error.
pub open spec fn spec_parse_pwquality(input: Seq<char>) -> Result<PasswordPolicy, PolicyErrorView> {
    match pwquality_run(split(input, '\n'), initial_state()) {
        Err(e) => Err(e),
        Ok(st) => if st.min_length_seen {
            Ok(st.policy)
        } else {
            Err(PolicyErrorView::MissingRequiredField("minlen"@))
        },
    }
}

/// The name of a directive.
fn directive_text(d: Directive) -> (s: &'static str)
    ensures
        s@ == directive_name(d),
{
    match d {
        Directive::MinLen => "minlen",
        Directive::MaxRepeat => "maxrepeat",
        Directive::DCredit => "dcredit",
        Directive::UCredit => "ucredit",
        Directive::LCredit => "lcredit",
        Directive::OCredit => "ocredit",
    }
}

/// The directive named by the key `v[lo..hi]`.
fn lookup_directive(v: &Vec<char>, lo: usize, hi: usize) -> (r: Option<Directive>)
    requires
        lo <= hi <= v.len(),
    ensures
        r == key_directive(v@.subrange(lo as int, hi as int)),
{
    if range_is(v, lo, hi, directive_text(Directive::MinLen)) {
        Some(Directive::MinLen)
    } else if range_is(v, lo, hi, directive_text(Directive::MaxRepeat)) {
        Some(Directive::MaxRepeat)
    } else if range_is(v, lo, hi, directive_text(Directive::DCredit)) {
        Some(Directive::DCredit)
    } else if range_is(v, lo, hi, directive_text(Directive::UCredit)) {
        Some(Directive::UCredit)
    } else if range_is(v, lo, hi, directive_text(Directive::LCredit)) {
        Some(Directive::LCredit)
    } else if range_is(v, lo, hi, directive_text(Directive::OCredit)) {
        Some(Directive::OCredit)
    } else {
        None
    }
}

/// Applies directive `d` with value `v[vlo..vhi]` of key `v[klo..khi]`.
fn apply_into(
    d: Directive,
    v: &Vec<char>,
    klo: usize,
    khi: usize,
    vlo: usize,
    vhi: usize,
    policy: &mut PasswordPolicy,
    seen: &mut bool,
) -> (r: Result<(), PolicyError>)
    requires
        klo <= khi <= v.len(),
        vlo <= vhi <= v.len(),
    ensures
        match apply_directive(
            ParseState { policy: *old(policy), min_length_seen: *old(seen) },
            d,
            v@.subrange(klo as int, khi as int),
            v@.subrange(vlo as int, vhi as int),
        ) {
            Ok(st) => r is Ok && *final(policy) == st.policy && *final(seen) == st.min_length_seen,
            Err(e) => r matches Err(x) && x@ == e,
        },
{
    match d {
        Directive::MinLen | Directive::MaxRepeat => match parse_u32_range(v, vlo, vhi) {
            Some(n) => {
                if let Directive::MinLen = d {
                    policy.min_length = n;
                    *seen = true;
                } else {
                    policy.max_repeated_chars = Some(n);
                }
                Ok(())
            },
            None => Err(
                PolicyError::InvalidValue {
                    key: string_of(v, klo, khi),
                    value: string_of(v, vlo, vhi),
                },
            ),
        },
        _ => match parse_i32_range(v, vlo, vhi) {
            Some(c) => {
                let required = c < 0;
                match d {
                    Directive::DCredit => policy.require_digit = required,
                    Directive::UCredit => policy.require_upper = required,
                    Directive::LCredit => policy.require_lower = required,
                    _ => policy.require_symbol = required,
                }
                Ok(())
            },
            None => Err(
                PolicyError::InvalidValue {
                    key: string_of(v, klo, khi),
                    value: string_of(v, vlo, vhi),
                },
            ),
        },
    }
}

/// Processes the line `v[lo..hi]`.
fn step_into(
    v: &Vec<char>,
    lo: usize,
    hi: usize,
    policy: &mut PasswordPolicy,
    seen: &mut bool,
) -> (r: Result<(), PolicyError>)
    requires
        lo <= hi <= v.len(),
    ensures
        match pwquality_step(
            ParseState { policy: *old(policy), min_length_seen: *old(seen) },
            v@.subrange(lo as int, hi as int),
        ) {
            Ok(st) => r is Ok && *final(policy) == st.policy && *final(seen) == st.min_length_seen,
            Err(e) => r matches Err(x) && x@ == e,
        },
{
    let (a, b) = trim_range(v, lo, hi);
    if a == b || v[a] == '#' {
        return Ok(());
    }
    let ghost t = v@.subrange(a as int, b as int);
    match find_char(v, a, b, '=') {
        None => Ok(()),
        Some(i) => {
            assert(t.take(i - a) =~= v@.subrange(a as int, i as int));
            assert(t.skip(i - a + 1) =~= v@.subrange(i + 1, b as int));
            let (klo, khi) = trim_range(v, a, i);
            let (vlo, vhi) = trim_range(v, i + 1, b);
            match lookup_directive(v, klo, khi) {
                None => Ok(()),
                Some(d) => if vlo == vhi {
                    Err(PolicyError::MissingValue(string_of(v, klo, khi)))
                } else {
                    apply_into(d, v, klo, khi, vlo, vhi, policy, seen)
                },
            }
        },
    }
}

/// Reads a policy from `pwquality.conf` syntax:
///
/// ```text
/// minlen = 12
/// dcredit = -1
/// ucredit = -1
/// maxrepeat = 3
/// minclass = 4
/// ```
pub fn parse_pwquality(input: &str) -> (r: Result<PasswordPolicy, PolicyError>)
    ensures
        match spec_parse_pwquality(input@) {
            Ok(p) => r == Ok::<_, PolicyError>(p),
            Err(e) => r matches Err(x) && x@ == e,
        },
{
    let v = chars_of(input);
    let hi = v.len();
    assert(v@.subrange(0, hi as int) =~= v@);
    let mut policy = PasswordPolicy::default();
    let mut seen = false;
    let mut pos: usize = 0;
    let ghost total = pwquality_run(split(v@, '\n'), initial_state());
    loop
        invariant_except_break
            total == pwquality_run(
                split(v@.subrange(pos as int, hi as int), '\n'),
                ParseState { policy: policy, min_length_seen: seen },
            ),
        invariant
            pos <= hi == v.len(),
            v@ == input@,
            total == pwquality_run(split(v@, '\n'), initial_state()),
        ensures
            total == Ok::<_, PolicyErrorView>(ParseState { policy: policy, min_length_seen: seen }),
        decreases hi - pos,
    {
        let ghost rest = v@.subrange(pos as int, hi as int);
        let found = find_char(&v, pos, hi, '\n');
        let end = match found {
            Some(i) => i,
            None => hi,
        };
        let ghost lines = split(rest, '\n');
        proof {
            lemma_find_result(rest, '\n');
            match found {
                Some(i) => {
                    assert(rest.take(i - pos) =~= v@.subrange(pos as int, i as int));
                    assert(rest.skip(i - pos + 1) =~= v@.subrange(i + 1, hi as int));
                    assert(lines == seq![v@.subrange(pos as int, end as int)] + split(
                        v@.subrange(i + 1, hi as int),
                        '\n',
                    ));
                    assert(lines.drop_first() =~= split(v@.subrange(i + 1, hi as int), '\n'));
                },
                None => {
                    assert(lines == seq![v@.subrange(pos as int, end as int)]);
                },
            }
            assert(lines[0] == v@.subrange(pos as int, end as int));
        }
        match step_into(&v, pos, end, &mut policy, &mut seen) {
            Err(e) => {
                return Err(e);
            },
            Ok(()) => {},
        }
        if end == hi {
            proof {
                assert(lines.drop_first().len() == 0);
                assert(pwquality_run(
                    lines.drop_first(),
                    ParseState { policy: policy, min_length_seen: seen },
                ) == Ok::<_, PolicyErrorView>(ParseState { policy: policy, min_length_seen: seen }));
            }
            break ;
        }
        pos = end + 1;
    }
    if seen {
        Ok(policy)
    } else {
        Err(PolicyError::MissingRequiredField("minlen"))
    }
}

/// Convenience wrapper: `pwquality.conf` text in, rules text out.
pub fn convert_pwquality_to_rules(input: &str) -> (r: Result<String, PolicyError>)
    ensures
        match spec_parse_pwquality(input@) {
            Ok(p) => r matches Ok(s) && s@ == render(Format::Rules, p),
            Err(e) => r matches Err(x) && x@ == e,
        },
{
    match parse_pwquality(input) {
        Ok(policy) => Ok(to_rules(&policy)),
        Err(e) => Err(e),
    }
}

/// Convenience wrapper: `pwquality.conf` text in, query text out.
pub fn convert_pwquality_to_query(input: &str) -> (r: Result<String, PolicyError>)
    ensures
        match spec_parse_pwquality(input@) {
            Ok(p) => r matches Ok(s) && s@ == render(Format::Query, p),
            Err(e) => r matches Err(x) && x@ == e,
        },
{
    match parse_pwquality(input) {
        Ok(policy) => Ok(to_query(&policy)),
        Err(e) => Err(e),
    }
}

} // verus!
