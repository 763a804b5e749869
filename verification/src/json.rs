//! The JSON form of a policy, for feeding it into or out of something that
//! expects structured input.  Written, it is one object with every field
//! under its rules-file name, in the rules-file order, and `null` for an
//! absent optional field.  Read, it is a flat object keyed by the
//! rules-file names: a field that is absent keeps its default, except that
//! `min_length` must be given; numbers are plain decimal digits, booleans
//! `true`/`false`, and an optional field may be `null`.  Members are split
//! at `,`, so a key or value cannot hold one, and keys are taken as written
//! (no escapes).
use vstd::prelude::*;
use vstd::string::*;
use crate::text::{
    chars_of, digits_u32, find, find_char, lemma_find_result, parse_digits_range, push_char,
    range_is, split, string_of, trim, trim_range,
};
use crate::policy::{
    field_at, field_at_index, field_text, initial_state, join, key_field, key_name, key_text,
    lemma_join_push, lookup_field, parse_rules, push_field_text, render, spec_parse_rules, to_query,
    to_rules, Field, Format, ParseState, PasswordPolicy, PolicyError, PolicyErrorView,
};
use crate::pwquality::{parse_pwquality, spec_parse_pwquality};

verus! {

broadcast use vstd::string::group_string_axioms;

/// The JSON value of field `f` of `p`.
pub open spec fn json_value(f: Field, p: PasswordPolicy) -> Seq<char> {
    match field_text(Format::Rules, f, p) {
        Some(t) => t,
        None => "null"@,
    }
}

/// The `"name":value` member for field `f` of `p`.
pub open spec fn json_member(f: Field, p: PasswordPolicy) -> Seq<char> {
    seq!['"'] + key_name(Format::Rules, f) + seq!['"', ':'] + json_value(f, p)
}

/// The members for the first `k` fields.
pub open spec fn json_members(p: PasswordPolicy, k: int) -> Seq<Seq<char>>
    decreases k,
{
    if k <= 0 {
        Seq::empty()
    } else {
        json_members(p, k - 1).push(json_member(field_at(k - 1), p))
    }
}

/// A policy as a JSON object.
pub open spec fn render_json(p: PasswordPolicy) -> Seq<char> {
    seq!['{'] + join(json_members(p, 8), ',') + seq!['}']
}

/// Renders a policy as a JSON object with the rules-file field names:
///
/// ```text
/// {"min_length":12,"max_length":null,"require_upper":true,...,"min_unique_chars":null}
/// ```
pub fn to_json(policy: &PasswordPolicy) -> (s: String)
    ensures
        s@ == render_json(*policy),
{
    let mut body = String::new();
    let mut i: usize = 0;
    while i < 8
        invariant
            i <= 8,
            body@ == join(json_members(*policy, i as int), ','),
        decreases 8 - i,
    {
        let f = field_at_index(i);
        let ghost before = json_members(*policy, i as int);
        let ghost old_body = body@;
        let mut member = String::new();
        push_char(&mut member, '"');
        member.append(key_text(Format::Rules, f));
        push_char(&mut member, '"');
        push_char(&mut member, ':');
        let present = push_field_text(&mut member, Format::Rules, f, policy);
        if !present {
            member.append("null");
        }
        assert(member@ =~= json_member(f, *policy));
        if i > 0 {
            push_char(&mut body, ',');
        }
        body.append(member.as_str());
        proof {
            lemma_join_push(before, ',', json_member(f, *policy));
            assert(json_members(*policy, i + 1) == before.push(json_member(f, *policy)));
            if i == 0 {
                assert(old_body =~= Seq::<char>::empty());
            }
            assert(body@ =~= join(json_members(*policy, i + 1), ','));
        }
        i = i + 1;
    }
    let mut out = String::new();
    push_char(&mut out, '{');
    out.append(body.as_str());
    push_char(&mut out, '}');
    assert(out@ =~= render_json(*policy));
    out
}

/// Convenience wrapper: rules text in, JSON out.
pub fn convert_rules_to_json(input: &str) -> (r: Result<String, PolicyError>)
    ensures
        match spec_parse_rules(input@) {
            Ok(p) => r matches Ok(s) && s@ == render_json(p),
            Err(e) => r matches Err(x) && x@ == e,
        },
{
    match parse_rules(input) {
        Ok(policy) => Ok(to_json(&policy)),
        Err(e) => Err(e),
    }
}

/// Convenience wrapper: `pwquality.conf` text in, JSON out.
pub fn convert_pwquality_to_json(input: &str) -> (r: Result<String, PolicyError>)
    ensures
        match spec_parse_pwquality(input@) {
            Ok(p) => r matches Ok(s) && s@ == render_json(p),
            Err(e) => r matches Err(x) && x@ == e,
        },
{
    match parse_pwquality(input) {
        Ok(policy) => Ok(to_json(&policy)),
        Err(e) => Err(e),
    }
}

// ---------------------------------------------------------------------------
// Reading
// ---------------------------------------------------------------------------

/// JSON booleans.
pub open spec fn json_bool(value: Seq<char>) -> Option<bool> {
    if value == "true"@ {
        Some(true)
    } else if value == "false"@ {
        Some(false)
    } else {
        None
    }
}

/// A JSON number or `null` for an optional field.
pub open spec fn json_optional(value: Seq<char>) -> Option<Option<u32>> {
    if value == "null"@ {
        Some(None)
    } else {
        match digits_u32(value) {
            Some(n) => Some(Some(n)),
            None => None,
        }
    }
}

/// Sets field `f` of `p` from the JSON value text `value`.
pub open spec fn apply_json_field(
    p: PasswordPolicy,
    f: Field,
    key: Seq<char>,
    value: Seq<char>,
) -> Result<PasswordPolicy, PolicyErrorView> {
    let bad = PolicyErrorView::InvalidValue { key, value };
    match f {
        Field::MinLength => match digits_u32(value) {
            Some(n) => Ok(PasswordPolicy { min_length: n, ..p }),
            None => Err(bad),
        },
        Field::MaxLength => match json_optional(value) {
            Some(o) => Ok(PasswordPolicy { max_length: o, ..p }),
            None => Err(bad),
        },
        Field::RequireUpper => match json_bool(value) {
            Some(b) => Ok(PasswordPolicy { require_upper: b, ..p }),
            None => Err(bad),
        },
        Field::RequireLower => match json_bool(value) {
            Some(b) => Ok(PasswordPolicy { require_lower: b, ..p }),
            None => Err(bad),
        },
        Field::RequireDigit => match json_bool(value) {
            Some(b) => Ok(PasswordPolicy { require_digit: b, ..p }),
            None => Err(bad),
        },
        Field::RequireSymbol => match json_bool(value) {
            Some(b) => Ok(PasswordPolicy { require_symbol: b, ..p }),
            None => Err(bad),
        },
        Field::MaxRepeatedChars => match json_optional(value) {
            Some(o) => Ok(PasswordPolicy { max_repeated_chars: o, ..p }),
            None => Err(bad),
        },
        Field::MinUniqueChars => match json_optional(value) {
            Some(o) => Ok(PasswordPolicy { min_unique_chars: o, ..p }),
            None => Err(bad),
        },
    }
}

/// The key and the trimmed value of a member `"key": value`, or `None` if
/// the piece does not have that shape.
pub open spec fn member_parts(piece: Seq<char>) -> Option<(Seq<char>, Seq<char>)> {
    let t = trim(piece);
    if t.len() > 0 && t[0] == '"' {
        match find(t.drop_first(), '"') {
            Some(j) => {
                let key = t.subrange(1, j + 1);
                let rest = trim(t.skip(j + 2));
                if rest.len() > 0 && rest[0] == ':' {
                    Some((key, trim(rest.drop_first())))
                } else {
                    None
                }
            },
            None => None,
        }
    } else {
        None
    }
}

/// Applies one member of the object.
pub open spec fn json_step(st: ParseState, piece: Seq<char>) -> Result<ParseState, PolicyErrorView> {
    match member_parts(piece) {
        None => Err(PolicyErrorView::MalformedJson(trim(piece))),
        Some((key, value)) => if value.len() == 0 {
            Err(PolicyErrorView::MissingValue(key))
        } else {
            match key_field(Format::Rules, key) {
                None => Err(PolicyErrorView::UnknownKey(key)),
                Some(f) => match apply_json_field(st.policy, f, key, value) {
                    Err(e) => Err(e),
                    Ok(p) => Ok(
                        ParseState {
                            policy: p,
                            min_length_seen: st.min_length_seen || f == Field::MinLength,
                        },
                    ),
                },
            }
        },
    }
}

/// Applies the members in order, stopping at the first error.
pub open spec fn json_run(pieces: Seq<Seq<char>>, st: ParseState) -> Result<
    ParseState,
    PolicyErrorView,
>
    decreases pieces.len(),
{
    if pieces.len() == 0 {
        Ok(st)
    } else {
        match json_step(st, pieces[0]) {
            Err(e) => Err(e),
            Ok(st2) => json_run(pieces.drop_first(), st2),
        }
    }
}

/// What `parse_json` gives for a text: the trimmed text must be `{...}`;
/// its trimmed inside is empty or members separated by `,`.
pub open spec fn spec_parse_json(input: Seq<char>) -> Result<PasswordPolicy, PolicyErrorView> {
    let t = trim(input);
    if t.len() >= 2 && t[0] == '{' && t.last() == '}' {
        let body = trim(t.subrange(1, t.len() - 1));
        let members = if body.len() == 0 {
            Ok(initial_state())
        } else {
            json_run(split(body, ','), initial_state())
        };
        match members {
            Err(e) => Err(e),
            Ok(st) => if st.min_length_seen {
                Ok(st.policy)
            } else {
                Err(PolicyErrorView::MissingRequiredField("min_length"@))
            },
        }
    } else {
        Err(PolicyErrorView::MalformedJson(t))
    }
}

/// Reads the value `v[vlo..vhi]` of an optional numeric field.
fn optional_value(v: &Vec<char>, vlo: usize, vhi: usize) -> (r: Option<Option<u32>>)
    requires
        vlo <= vhi <= v.len(),
    ensures
        r == json_optional(v@.subrange(vlo as int, vhi as int)),
{
    if range_is(v, vlo, vhi, "null") {
        Some(None)
    } else {
        match parse_digits_range(v, vlo, vhi) {
            Some(n) => Some(Some(n)),
            None => None,
        }
    }
}

/// Reads the value `v[vlo..vhi]` of a boolean field.
fn bool_of(v: &Vec<char>, vlo: usize, vhi: usize) -> (r: Option<bool>)
    requires
        vlo <= vhi <= v.len(),
    ensures
        r == json_bool(v@.subrange(vlo as int, vhi as int)),
{
    if range_is(v, vlo, vhi, "true") {
        Some(true)
    } else if range_is(v, vlo, vhi, "false") {
        Some(false)
    } else {
        None
    }
}

/// Sets field `f` of `policy` from the value `v[vlo..vhi]` of key `v[klo..khi]`.
fn set_json_field(
    policy: &mut PasswordPolicy,
    f: Field,
    v: &Vec<char>,
    klo: usize,
    khi: usize,
    vlo: usize,
    vhi: usize,
) -> (r: Result<(), PolicyError>)
    requires
        klo <= khi <= v.len(),
        vlo <= vhi <= v.len(),
    ensures
        match apply_json_field(
            *old(policy),
            f,
            v@.subrange(klo as int, khi as int),
            v@.subrange(vlo as int, vhi as int),
        ) {
            Ok(p) => r is Ok && *final(policy) == p,
            Err(e) => r matches Err(x) && x@ == e,
        },
{
    let ok = match f {
        Field::MinLength => match parse_digits_range(v, vlo, vhi) {
            Some(n) => {
                policy.min_length = n;
                true
            },
            None => false,
        },
        Field::MaxLength => match optional_value(v, vlo, vhi) {
            Some(o) => {
                policy.max_length = o;
                true
            },
            None => false,
        },
        Field::MaxRepeatedChars => match optional_value(v, vlo, vhi) {
            Some(o) => {
                policy.max_repeated_chars = o;
                true
            },
            None => false,
        },
        Field::MinUniqueChars => match optional_value(v, vlo, vhi) {
            Some(o) => {
                policy.min_unique_chars = o;
                true
            },
            None => false,
        },
        Field::RequireUpper => match bool_of(v, vlo, vhi) {
            Some(b) => {
                policy.require_upper = b;
                true
            },
            None => false,
        },
        Field::RequireLower => match bool_of(v, vlo, vhi) {
            Some(b) => {
                policy.require_lower = b;
                true
            },
            None => false,
        },
        Field::RequireDigit => match bool_of(v, vlo, vhi) {
            Some(b) => {
                policy.require_digit = b;
                true
            },
            None => false,
        },
        Field::RequireSymbol => match bool_of(v, vlo, vhi) {
            Some(b) => {
                policy.require_symbol = b;
                true
            },
            None => false,
        },
    };
    if ok {
        Ok(())
    } else {
        Err(PolicyError::InvalidValue { key: string_of(v, klo, khi), value: string_of(v, vlo, vhi) })
    }
}

/// Applies the member `v[lo..hi]`.
fn member_into(
    v: &Vec<char>,
    lo: usize,
    hi: usize,
    policy: &mut PasswordPolicy,
    seen: &mut bool,
) -> (r: Result<(), PolicyError>)
    requires
        lo <= hi <= v.len(),
    ensures
        match json_step(
            ParseState { policy: *old(policy), min_length_seen: *old(seen) },
            v@.subrange(lo as int, hi as int),
        ) {
            Ok(st) => r is Ok && *final(policy) == st.policy && *final(seen) == st.min_length_seen,
            Err(e) => r matches Err(x) && x@ == e,
        },
{
    let (a, b) = trim_range(v, lo, hi);
    let ghost t = v@.subrange(a as int, b as int);
    if a == b || v[a] != '"' {
        return Err(PolicyError::MalformedJson(string_of(v, a, b)));
    }
    assert(t.drop_first() =~= v@.subrange(a + 1, b as int));
    let q = match find_char(v, a + 1, b, '"') {
        Some(q) => q,
        None => {
            return Err(PolicyError::MalformedJson(string_of(v, a, b)));
        },
    };
    assert(t.subrange(1, q - a) =~= v@.subrange(a + 1, q as int));
    assert(t.skip(q - a + 1) =~= v@.subrange(q + 1, b as int));
    let (ra, rb) = trim_range(v, q + 1, b);
    if ra == rb || v[ra] != ':' {
        return Err(PolicyError::MalformedJson(string_of(v, a, b)));
    }
    assert(v@.subrange(ra as int, rb as int).drop_first() =~= v@.subrange(ra + 1, rb as int));
    let (vlo, vhi) = trim_range(v, ra + 1, rb);
    if vlo == vhi {
        return Err(PolicyError::MissingValue(string_of(v, a + 1, q)));
    }
    match lookup_field(Format::Rules, v, a + 1, q) {
        None => Err(PolicyError::UnknownKey(string_of(v, a + 1, q))),
        Some(f) => {
            set_json_field(policy, f, v, a + 1, q, vlo, vhi)?;
            if let Field::MinLength = f {
                *seen = true;
            }
            Ok(())
        },
    }
}

/// Applies the members of `v[lo..hi]`, split at `,`.
fn members_into(
    v: &Vec<char>,
    lo: usize,
    hi: usize,
    policy: &mut PasswordPolicy,
    seen: &mut bool,
) -> (r: Result<(), PolicyError>)
    requires
        lo <= hi <= v.len(),
    ensures
        match json_run(
            split(v@.subrange(lo as int, hi as int), ','),
            ParseState { policy: *old(policy), min_length_seen: *old(seen) },
        ) {
            Ok(st) => r is Ok && *final(policy) == st.policy && *final(seen) == st.min_length_seen,
            Err(e) => r matches Err(x) && x@ == e,
        },
{
    let ghost total = json_run(
        split(v@.subrange(lo as int, hi as int), ','),
        ParseState { policy: *policy, min_length_seen: *seen },
    );
    let mut pos = lo;
    loop
        invariant_except_break
            total == json_run(
                split(v@.subrange(pos as int, hi as int), ','),
                ParseState { policy: *policy, min_length_seen: *seen },
            ),
        invariant
            lo <= pos <= hi <= v.len(),
            total == json_run(
                split(v@.subrange(lo as int, hi as int), ','),
                ParseState { policy: *old(policy), min_length_seen: *old(seen) },
            ),
        ensures
            total == Ok::<_, PolicyErrorView>(
                ParseState { policy: *policy, min_length_seen: *seen },
            ),
        decreases hi - pos,
    {
        let ghost rest = v@.subrange(pos as int, hi as int);
        let found = find_char(v, pos, hi, ',');
        let end = match found {
            Some(i) => i,
            None => hi,
        };
        let ghost pieces = split(rest, ',');
        proof {
            lemma_find_result(rest, ',');
            match found {
                Some(i) => {
                    assert(rest.take(i - pos) =~= v@.subrange(pos as int, i as int));
                    assert(rest.skip(i - pos + 1) =~= v@.subrange(i + 1, hi as int));
                    assert(pieces == seq![v@.subrange(pos as int, end as int)] + split(
                        v@.subrange(i + 1, hi as int),
                        ',',
                    ));
                    assert(pieces.drop_first() =~= split(v@.subrange(i + 1, hi as int), ','));
                },
                None => {
                    assert(pieces == seq![v@.subrange(pos as int, end as int)]);
                },
            }
            assert(pieces[0] == v@.subrange(pos as int, end as int));
        }
        member_into(v, pos, end, policy, seen)?;
        if end == hi {
            proof {
                assert(pieces.drop_first().len() == 0);
                assert(json_run(
                    pieces.drop_first(),
                    ParseState { policy: *policy, min_length_seen: *seen },
                ) == Ok::<_, PolicyErrorView>(
                    ParseState { policy: *policy, min_length_seen: *seen },
                ));
            }
            break ;
        }
        pos = end + 1;
    }
    Ok(())
}

/// Reads a policy from its JSON form, such as
/// `{"min_length":10,"require_upper":true}`.
pub fn parse_json(input: &str) -> (r: Result<PasswordPolicy, PolicyError>)
    ensures
        match spec_parse_json(input@) {
            Ok(p) => r == Ok::<_, PolicyError>(p),
            Err(e) => r matches Err(x) && x@ == e,
        },
{
    let v = chars_of(input);
    assert(v@.subrange(0, v@.len() as int) =~= v@);
    let (a, b) = trim_range(&v, 0, v.len());
    if b - a < 2 || v[a] != '{' || v[b - 1] != '}' {
        return Err(PolicyError::MalformedJson(string_of(&v, a, b)));
    }
    assert(v@.subrange(a as int, b as int).subrange(1, b - a - 1) =~= v@.subrange(
        a + 1,
        b - 1,
    ));
    let (ba, bb) = trim_range(&v, a + 1, b - 1);
    let mut policy = PasswordPolicy::default();
    let mut seen = false;
    if ba < bb {
        members_into(&v, ba, bb, &mut policy, &mut seen)?;
    }
    if seen {
        Ok(policy)
    } else {
        Err(PolicyError::MissingRequiredField("min_length"))
    }
}

/// Convenience wrapper: JSON in, rules text out.
pub fn convert_json_to_rules(input: &str) -> (r: Result<String, PolicyError>)
    ensures
        match spec_parse_json(input@) {
            Ok(p) => r matches Ok(s) && s@ == render(Format::Rules, p),
            Err(e) => r matches Err(x) && x@ == e,
        },
{
    match parse_json(input) {
        Ok(policy) => Ok(to_rules(&policy)),
        Err(e) => Err(e),
    }
}

/// Convenience wrapper: JSON in, query text out.
pub fn convert_json_to_query(input: &str) -> (r: Result<String, PolicyError>)
    ensures
        match spec_parse_json(input@) {
            Ok(p) => r matches Ok(s) && s@ == render(Format::Query, p),
            Err(e) => r matches Err(x) && x@ == e,
        },
{
    match parse_json(input) {
        Ok(policy) => Ok(to_query(&policy)),
        Err(e) => Err(e),
    }
}

} // verus!
