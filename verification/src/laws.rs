//! What holds across the parsers, the renderers and the checks: every
//! policy written in a format reads back as the same policy, moving a policy
//! from one format to another loses nothing, whitespace around `=` and
//! comment lines change nothing, each `pwquality.conf` directive sets its
//! own field, and `validate` warns exactly when its conditions hold.
use vstd::prelude::*;
use vstd::string::*;
use crate::text::{
    all_digits, digits_u32, decimal, find, i32_value, is_digit, is_space, lemma_decimal, lemma_find_first, lemma_parse_decimal, split,
    trim, trim_end, trim_start, u32_value,
};
use crate::pwquality::{
    apply_directive, directive_name, key_directive, pwquality_run, pwquality_step,
    spec_parse_pwquality, Directive,
};
use crate::json::{
    apply_json_field, json_member, json_members, json_optional, json_run, json_step,
    json_value, member_parts, render_json, spec_parse_json,
};
use crate::policy::{
    apply_field, bool_value, policy_warnings, default_policy, flag_text, entries, entries_upto, entry_for, field_at, field_text,
    initial_state, is_skipped_line, join, key_field, key_name, parse_pieces, render, run, separator,
    spec_parse_query, spec_parse_rules, split_pair, step, Field, Format, ParseState,
    PasswordPolicy, PolicyErrorView,
};

verus! {

broadcast use vstd::string::group_string_axioms;

// ---------------------------------------------------------------------------
// Generic facts about text
// ---------------------------------------------------------------------------

/// A text that neither starts nor ends with whitespace is its own trim.
proof fn lemma_trim_unchanged(s: Seq<char>)
    requires
        s.len() > 0,
        !is_space(s[0]),
        !is_space(s.last()),
    ensures
        trim(s) == s,
{
    assert(trim_start(s) == s);
}

/// `c` does not occur in `s`.
pub open spec fn lacks(s: Seq<char>, c: char) -> bool {
    forall|j: int| 0 <= j < s.len() ==> s[j] != c
}

/// Splitting the joined pieces at the joining character gives the pieces
/// back, as long as no piece holds that character.
proof fn lemma_split_join(pieces: Seq<Seq<char>>, sep: char)
    requires
        pieces.len() >= 1,
        forall|i: int| 0 <= i < pieces.len() ==> lacks(#[trigger] pieces[i], sep),
    ensures
        split(join(pieces, sep), sep) == pieces,
    decreases pieces.len(),
{
    let first = pieces[0];
    assert(lacks(first, sep));
    if pieces.len() == 1 {
        lemma_find_first(first, sep, first.len() as int);
        assert(split(join(pieces, sep), sep) =~= pieces);
    } else {
        let rest = pieces.drop_first();
        assert forall|i: int| 0 <= i < rest.len() implies lacks(#[trigger] rest[i], sep) by {
            assert(rest[i] == pieces[i + 1]);
        }
        lemma_split_join(rest, sep);
        let s = join(pieces, sep);
        assert(s == first + seq![sep] + join(rest, sep));
        lemma_find_first(s, sep, first.len() as int);
        assert(s.take(first.len() as int) =~= first);
        assert(s.skip(first.len() as int + 1) =~= join(rest, sep));
        assert(split(s, sep) =~= pieces);
    }
}

/// The first character of a join is the first character of its first piece.
proof fn lemma_join_first(pieces: Seq<Seq<char>>, sep: char)
    requires
        pieces.len() >= 1,
        pieces[0].len() > 0,
    ensures
        join(pieces, sep).len() > 0,
        join(pieces, sep)[0] == pieces[0][0],
{
}

/// The last character of a join is the last character of its last piece.
proof fn lemma_join_last(pieces: Seq<Seq<char>>, sep: char)
    requires
        pieces.len() >= 1,
        pieces.last().len() > 0,
    ensures
        join(pieces, sep).len() > 0,
        join(pieces, sep).last() == pieces.last().last(),
    decreases pieces.len(),
{
    if pieces.len() > 1 {
        let rest = pieces.drop_first();
        assert(rest.last() == pieces.last());
        lemma_join_last(rest, sep);
    }
}

/// Running a concatenation runs the first part, then the second from where
/// the first left off.
proof fn lemma_run_append(fmt: Format, a: Seq<Seq<char>>, b: Seq<Seq<char>>, st: ParseState)
    ensures
        run(fmt, a + b, st) == (match run(fmt, a, st) {
            Ok(mid) => run(fmt, b, mid),
            Err(e) => Err(e),
        }),
    decreases a.len(),
{
    if a.len() == 0 {
        assert(a + b =~= b);
    } else {
        assert((a + b)[0] == a[0]);
        assert((a + b).drop_first() =~= a.drop_first() + b);
        match step(fmt, st, a[0]) {
            Ok(st2) => lemma_run_append(fmt, a.drop_first(), b, st2),
            Err(_) => {},
        }
    }
}

// ---------------------------------------------------------------------------
// Facts about the keys and values the renderers write
// ---------------------------------------------------------------------------

/// Each key name is a nonempty word with no whitespace at its ends, no `=`,
/// no separator and no leading `#`, and the parser maps it back to its field.
proof fn lemma_key(fmt: Format, f: Field)
    ensures
        key_name(fmt, f).len() > 0,
        !is_space(key_name(fmt, f)[0]),
        !is_space(key_name(fmt, f).last()),
        key_name(fmt, f)[0] != '#',
        lacks(key_name(fmt, f), '='),
        lacks(key_name(fmt, f), separator(fmt)),
        lacks(key_name(fmt, f), ','),
        lacks(key_name(fmt, f), '"'),
        key_field(fmt, key_name(fmt, f)) == Some(f),
{
    reveal_strlit("min_length");
    reveal_strlit("max_length");
    reveal_strlit("require_upper");
    reveal_strlit("require_lower");
    reveal_strlit("require_digit");
    reveal_strlit("require_symbol");
    reveal_strlit("max_repeated_chars");
    reveal_strlit("min_unique_chars");
    reveal_strlit("minLength");
    reveal_strlit("maxLength");
    reveal_strlit("upper");
    reveal_strlit("lower");
    reveal_strlit("digit");
    reveal_strlit("symbol");
    reveal_strlit("maxRepeat");
    reveal_strlit("minUnique");
    let k = key_name(fmt, f);
    assert forall|g: Field| g != f implies key_name(fmt, g) != k by {
        let h = key_name(fmt, g);
        if h.len() == k.len() {
            assert(h[0] != k[0] || h[1] != k[1] || h[3] != k[3] || h[8] != k[8]);
        }
    }
    assert(k.len() > 0);
    assert(lacks(k, '='));
    assert(lacks(k, separator(fmt)));
    assert(lacks(k, ','));
    assert(lacks(k, '"'));
    assert(key_field(fmt, k) == Some(f));
}

/// The value text of a present field: nonempty, no whitespace at its ends,
/// no `=` and no separator, and reading it back sets the field to the
/// value it was written from.
proof fn lemma_value(fmt: Format, f: Field, p: PasswordPolicy, q: PasswordPolicy, key: Seq<char>)
    requires
        field_text(fmt, f, p) is Some,
    ensures
        ({
            let t = field_text(fmt, f, p)->0;
            &&& t.len() > 0
            &&& !is_space(t[0])
            &&& !is_space(t.last())
            &&& lacks(t, '=')
            &&& lacks(t, separator(fmt))
            &&& apply_field(q, f, key, t) == Ok::<_, PolicyErrorView>(set_from(q, f, p))
        }),
{
    reveal_strlit("true");
    reveal_strlit("false");
    reveal_strlit("1");
    reveal_strlit("0");
    let t = field_text(fmt, f, p)->0;
    match f {
        Field::MinLength => lemma_number(fmt, p.min_length),
        Field::MaxLength => lemma_number(fmt, p.max_length->0),
        Field::MaxRepeatedChars => lemma_number(fmt, p.max_repeated_chars->0),
        Field::MinUniqueChars => lemma_number(fmt, p.min_unique_chars->0),
        _ => {
            assert(t.len() > 0);
            assert(lacks(t, '='));
            assert(lacks(t, separator(fmt)));
        },
    }
}

/// A rendered number: nonempty digits, so no whitespace, `=` or separator,
/// and it reads back as itself.
proof fn lemma_number(fmt: Format, n: u32)
    ensures
        decimal(n as nat).len() > 0,
        !is_space(decimal(n as nat)[0]),
        !is_space(decimal(n as nat).last()),
        lacks(decimal(n as nat), '='),
        lacks(decimal(n as nat), separator(fmt)),
        u32_value(decimal(n as nat)) == Some(n),
{
    lemma_decimal(n as nat);
    lemma_parse_decimal(n);
    let s = decimal(n as nat);
    assert(is_digit(s[0]));
    assert(is_digit(s[s.len() - 1]));
    assert forall|j: int| 0 <= j < s.len() implies s[j] != '=' && s[j] != separator(fmt) by {
        assert(is_digit(s[j]));
    }
}

/// `q` with field `f` taken from `p`.
pub open spec fn set_from(q: PasswordPolicy, f: Field, p: PasswordPolicy) -> PasswordPolicy {
    match f {
        Field::MinLength => PasswordPolicy { min_length: p.min_length, ..q },
        Field::MaxLength => PasswordPolicy { max_length: p.max_length, ..q },
        Field::RequireUpper => PasswordPolicy { require_upper: p.require_upper, ..q },
        Field::RequireLower => PasswordPolicy { require_lower: p.require_lower, ..q },
        Field::RequireDigit => PasswordPolicy { require_digit: p.require_digit, ..q },
        Field::RequireSymbol => PasswordPolicy { require_symbol: p.require_symbol, ..q },
        Field::MaxRepeatedChars => PasswordPolicy { max_repeated_chars: p.max_repeated_chars, ..q },
        Field::MinUniqueChars => PasswordPolicy { min_unique_chars: p.min_unique_chars, ..q },
    }
}

/// The default policy with its first `k` fields (in writing order) taken
/// from `p`.
spec fn prefix_policy(p: PasswordPolicy, k: int) -> PasswordPolicy {
    let d = default_policy();
    PasswordPolicy {
        min_length: if k >= 1 { p.min_length } else { d.min_length },
        max_length: if k >= 2 { p.max_length } else { d.max_length },
        require_upper: if k >= 3 { p.require_upper } else { d.require_upper },
        require_lower: if k >= 4 { p.require_lower } else { d.require_lower },
        require_digit: if k >= 5 { p.require_digit } else { d.require_digit },
        require_symbol: if k >= 6 { p.require_symbol } else { d.require_symbol },
        max_repeated_chars: if k >= 7 { p.max_repeated_chars } else { d.max_repeated_chars },
        min_unique_chars: if k >= 8 { p.min_unique_chars } else { d.min_unique_chars },
    }
}

/// An entry as the renderer writes it is a line the parser reads back into
/// the same field.
proof fn lemma_entry(fmt: Format, f: Field, p: PasswordPolicy, st: ParseState)
    requires
        field_text(fmt, f, p) is Some,
    ensures
        ({
            let e = key_name(fmt, f) + seq!['='] + field_text(fmt, f, p)->0;
            &&& e.len() > 0
            &&& !is_space(e[0])
            &&& !is_space(e.last())
            &&& lacks(e, separator(fmt))
            &&& step(fmt, st, e) == Ok::<_, PolicyErrorView>(
                ParseState {
                    policy: set_from(st.policy, f, p),
                    min_length_seen: st.min_length_seen || f == Field::MinLength,
                },
            )
        }),
{
    let k = key_name(fmt, f);
    let t = field_text(fmt, f, p)->0;
    let e = k + seq!['='] + t;
    lemma_key(fmt, f);
    lemma_value(fmt, f, p, st.policy, k);
    assert(e[0] == k[0]);
    assert(e.last() == t.last());
    assert forall|j: int| 0 <= j < e.len() implies e[j] != separator(fmt) by {
        if j < k.len() {
            assert(e[j] == k[j]);
        } else if j > k.len() {
            assert(e[j] == t[j - k.len() - 1]);
        }
    }
    assert forall|j: int| 0 <= j < k.len() implies e[j] != '=' by {
        assert(e[j] == k[j]);
    }
    lemma_find_first(e, '=', k.len() as int);
    assert(e.take(k.len() as int) =~= k);
    assert(e.skip(k.len() as int + 1) =~= t);
    lemma_trim_unchanged(k);
    lemma_trim_unchanged(t);
    lemma_trim_unchanged(e);
    assert(split_pair(e, '=') == Ok::<_, PolicyErrorView>((k, t)));
}

/// Reading the entries of the first `k` fields gives the default policy with
/// those fields taken from `p`.
proof fn lemma_entries_upto(fmt: Format, p: PasswordPolicy, k: int)
    requires
        0 <= k <= 8,
    ensures
        run(fmt, entries_upto(fmt, p, k), initial_state()) == Ok::<_, PolicyErrorView>(
            ParseState { policy: prefix_policy(p, k), min_length_seen: k >= 1 },
        ),
        k >= 1 ==> entries_upto(fmt, p, k).len() >= 1,
        k >= 1 ==> entries_upto(fmt, p, k)[0].len() > 0 && !is_space(
            entries_upto(fmt, p, k)[0][0],
        ),
        forall|i: int|
            0 <= i < entries_upto(fmt, p, k).len() ==> {
                &&& lacks(#[trigger] entries_upto(fmt, p, k)[i], separator(fmt))
                &&& entries_upto(fmt, p, k)[i].len() > 0
                &&& !is_space(entries_upto(fmt, p, k)[i].last())
            },
    decreases k,
{
    if k > 0 {
        lemma_entries_upto(fmt, p, k - 1);
        let f = field_at(k - 1);
        let before = entries_upto(fmt, p, k - 1);
        let st = ParseState { policy: prefix_policy(p, k - 1), min_length_seen: k - 1 >= 1 };
        let one = entry_for(fmt, f, p);
        lemma_run_append(fmt, before, one, initial_state());
        match field_text(fmt, f, p) {
            Some(t) => {
                lemma_entry(fmt, f, p, st);
                let e = key_name(fmt, f) + seq!['='] + t;
                assert(one == seq![e]);
                assert(one[0] == e);
                assert(one.drop_first().len() == 0);
                let st2 = ParseState {
                    policy: set_from(st.policy, f, p),
                    min_length_seen: st.min_length_seen || f == Field::MinLength,
                };
                assert(run(fmt, one.drop_first(), st2) == Ok::<_, PolicyErrorView>(st2));
                assert(set_from(st.policy, f, p) == prefix_policy(p, k));
                assert(run(fmt, one, st) == Ok::<_, PolicyErrorView>(
                    ParseState { policy: prefix_policy(p, k), min_length_seen: k >= 1 },
                ));
                if k == 1 {
                    assert(entries_upto(fmt, p, k) =~= seq![e]);
                } else {
                    assert(entries_upto(fmt, p, k)[0] == before[0]);
                }
                assert forall|i: int| 0 <= i < entries_upto(fmt, p, k).len() implies {
                    &&& lacks(#[trigger] entries_upto(fmt, p, k)[i], separator(fmt))
                    &&& entries_upto(fmt, p, k)[i].len() > 0
                    &&& !is_space(entries_upto(fmt, p, k)[i].last())
                } by {
                    if i < before.len() {
                        assert(entries_upto(fmt, p, k)[i] == before[i]);
                    } else {
                        assert(entries_upto(fmt, p, k)[i] == e);
                    }
                }
            },
            None => {
                assert(one.len() == 0);
                assert(entries_upto(fmt, p, k) =~= before);
                assert(k != 1);
                assert(prefix_policy(p, k) == prefix_policy(p, k - 1));
            },
        }
    }
}

/// Writing a policy in a format and reading it back gives the policy.
proof fn lemma_render_parse(fmt: Format, p: PasswordPolicy)
    ensures
        parse_pieces(fmt, render(fmt, p)) == Ok::<_, PolicyErrorView>(p),
        render(fmt, p).len() > 0,
        !is_space(render(fmt, p)[0]),
        !is_space(render(fmt, p).last()),
{
    lemma_entries_upto(fmt, p, 8);
    let es = entries(fmt, p);
    lemma_split_join(es, separator(fmt));
    lemma_join_first(es, separator(fmt));
    lemma_join_last(es, separator(fmt));
    assert(prefix_policy(p, 8) == p);
}

// ---------------------------------------------------------------------------
// The JSON form
// ---------------------------------------------------------------------------

/// Applying the members one after another.
proof fn lemma_json_run_push(a: Seq<Seq<char>>, x: Seq<char>, st: ParseState)
    ensures
        json_run(a.push(x), st) == (match json_run(a, st) {
            Ok(mid) => json_run(seq![x], mid),
            Err(e) => Err(e),
        }),
    decreases a.len(),
{
    if a.len() == 0 {
        assert(a.push(x) =~= seq![x]);
    } else {
        assert(a.push(x)[0] == a[0]);
        assert(a.push(x).drop_first() =~= a.drop_first().push(x));
        match json_step(st, a[0]) {
            Ok(st2) => lemma_json_run_push(a.drop_first(), x, st2),
            Err(_) => {},
        }
    }
}

/// The JSON value of a field: nonempty, no whitespace at its ends, no `,`,
/// and it reads back as the field's value.
proof fn lemma_json_value(f: Field, p: PasswordPolicy, q: PasswordPolicy, key: Seq<char>)
    ensures
        ({
            let t = json_value(f, p);
            &&& t.len() > 0
            &&& !is_space(t[0])
            &&& !is_space(t.last())
            &&& lacks(t, ',')
            &&& apply_json_field(q, f, key, t) == Ok::<_, PolicyErrorView>(set_from(q, f, p))
        }),
{
    reveal_strlit("true");
    reveal_strlit("false");
    reveal_strlit("null");
    let t = json_value(f, p);
    match field_text(Format::Rules, f, p) {
        Some(v) => {
            match f {
                Field::MinLength => lemma_json_number(p.min_length),
                Field::MaxLength => lemma_json_number(p.max_length->0),
                Field::MaxRepeatedChars => lemma_json_number(p.max_repeated_chars->0),
                Field::MinUniqueChars => lemma_json_number(p.min_unique_chars->0),
                _ => {
                    assert(t.len() > 0);
                    assert(lacks(t, ','));
                    assert("false"@.len() != "true"@.len());
                },
            }
        },
        None => {
            assert(t.len() > 0);
            assert(lacks(t, ','));
        },
    }
}

/// A written number reads back as a JSON number, and is not `null`.
proof fn lemma_json_number(n: u32)
    ensures
        decimal(n as nat).len() > 0,
        !is_space(decimal(n as nat)[0]),
        !is_space(decimal(n as nat).last()),
        lacks(decimal(n as nat), ','),
        digits_u32(decimal(n as nat)) == Some(n),
        json_optional(decimal(n as nat)) == Some(Some(n)),
{
    reveal_strlit("null");
    lemma_decimal(n as nat);
    let s = decimal(n as nat);
    assert(is_digit(s[0]));
    assert(is_digit(s[s.len() - 1]));
    assert(s != "null"@) by {
        assert(s[0] != "null"@[0]);
    }
    assert forall|j: int| 0 <= j < s.len() implies s[j] != ',' by {
        assert(is_digit(s[j]));
    }
}

/// A written member reads back into its field.
proof fn lemma_json_member(f: Field, p: PasswordPolicy, st: ParseState)
    ensures
        ({
            let m = json_member(f, p);
            &&& m.len() > 0
            &&& m[0] == '"'
            &&& !is_space(m.last())
            &&& lacks(m, ',')
            &&& json_step(st, m) == Ok::<_, PolicyErrorView>(
                ParseState {
                    policy: set_from(st.policy, f, p),
                    min_length_seen: st.min_length_seen || f == Field::MinLength,
                },
            )
        }),
{
    let k = key_name(Format::Rules, f);
    let t = json_value(f, p);
    let m = json_member(f, p);
    lemma_key(Format::Rules, f);
    lemma_json_value(f, p, st.policy, k);
    assert(m =~= seq!['"'] + k + seq!['"', ':'] + t);
    assert(m.last() == t.last());
    assert forall|j: int| 0 <= j < m.len() implies m[j] != ',' by {
        if 1 <= j < k.len() + 1 {
            assert(m[j] == k[j - 1]);
        } else if j > k.len() + 2 {
            assert(m[j] == t[j - k.len() - 3]);
        }
    }
    lemma_trim_unchanged(m);
    let d = m.drop_first();
    assert(d =~= k + seq!['"', ':'] + t);
    assert forall|j: int| 0 <= j < k.len() implies d[j] != '"' by {
        assert(d[j] == k[j]);
    }
    lemma_find_first(d, '"', k.len() as int);
    assert(m.subrange(1, k.len() as int + 1) =~= k);
    let r = m.skip(k.len() as int + 2);
    assert(r =~= seq![':'] + t);
    lemma_trim_unchanged(r);
    assert(r.drop_first() =~= t);
    lemma_trim_unchanged(t);
    assert(member_parts(m) == Some((k, t)));
}

/// Reading the members of the first `k` fields gives the default policy
/// with those fields taken from `p`.
proof fn lemma_json_members(p: PasswordPolicy, k: int)
    requires
        0 <= k <= 8,
    ensures
        json_run(json_members(p, k), initial_state()) == Ok::<_, PolicyErrorView>(
            ParseState { policy: prefix_policy(p, k), min_length_seen: k >= 1 },
        ),
        json_members(p, k).len() == k,
        forall|i: int|
            0 <= i < k ==> {
                &&& lacks(#[trigger] json_members(p, k)[i], ',')
                &&& json_members(p, k)[i].len() > 0
                &&& json_members(p, k)[i][0] == '"'
                &&& !is_space(json_members(p, k)[i].last())
            },
    decreases k,
{
    if k > 0 {
        lemma_json_members(p, k - 1);
        let f = field_at(k - 1);
        let before = json_members(p, k - 1);
        let st = ParseState { policy: prefix_policy(p, k - 1), min_length_seen: k - 1 >= 1 };
        let m = json_member(f, p);
        lemma_json_member(f, p, st);
        lemma_json_run_push(before, m, initial_state());
        let st2 = ParseState {
            policy: set_from(st.policy, f, p),
            min_length_seen: st.min_length_seen || f == Field::MinLength,
        };
        assert(seq![m][0] == m);
        assert(json_run(seq![m].drop_first(), st2) == Ok::<_, PolicyErrorView>(st2));
        assert(set_from(st.policy, f, p) == prefix_policy(p, k));
        assert forall|i: int| 0 <= i < k implies {
            &&& lacks(#[trigger] json_members(p, k)[i], ',')
            &&& json_members(p, k)[i].len() > 0
            &&& json_members(p, k)[i][0] == '"'
            &&& !is_space(json_members(p, k)[i].last())
        } by {
            if i < k - 1 {
                assert(json_members(p, k)[i] == before[i]);
            } else {
                assert(json_members(p, k)[i] == m);
            }
        }
    }
}

// ---------------------------------------------------------------------------
// Laws
// ---------------------------------------------------------------------------

/// Any policy written as JSON reads back as the same policy.
pub proof fn law_json_round_trip(p: PasswordPolicy)
    ensures
        spec_parse_json(render_json(p)) == Ok::<_, PolicyErrorView>(p),
{
    lemma_json_members(p, 8);
    let ms = json_members(p, 8);
    let body = join(ms, ',');
    lemma_split_join(ms, ',');
    lemma_join_first(ms, ',');
    lemma_join_last(ms, ',');
    lemma_trim_unchanged(body);
    let text = render_json(p);
    assert(text =~= seq!['{'] + body + seq!['}']);
    assert(text.last() == '}');
    lemma_trim_unchanged(text);
    assert(text.subrange(1, text.len() - 1) =~= body);
    assert(prefix_policy(p, 8) == p);
}

/// Any policy written as a rules file reads back as the same policy.
pub proof fn law_rules_round_trip(p: PasswordPolicy)
    ensures
        spec_parse_rules(render(Format::Rules, p)) == Ok::<_, PolicyErrorView>(p),
{
    lemma_render_parse(Format::Rules, p);
}

/// Any policy written as a query string reads back as the same policy.
pub proof fn law_query_round_trip(p: PasswordPolicy)
    ensures
        spec_parse_query(render(Format::Query, p)) == Ok::<_, PolicyErrorView>(p),
{
    lemma_render_parse(Format::Query, p);
    lemma_trim_unchanged(render(Format::Query, p));
}

/// Both spellings of a boolean that the renderers write (`true`/`false` in
/// rules files, `1`/`0` in query strings) read back as the same boolean.
pub proof fn law_flag_read_back(fmt: Format, b: bool)
    ensures
        bool_value(flag_text(fmt, b)) == Some(b),
{
    reveal_strlit("true");
    reveal_strlit("false");
    reveal_strlit("1");
    reveal_strlit("0");
    assert("0"@[0] != "1"@[0]);
    assert("false"@.len() != "true"@.len() && "false"@.len() != "1"@.len());
    assert("1"@.len() != "true"@.len() && "0"@.len() != "true"@.len());
}

/// Inserting a blank line or a `#` comment line anywhere among the lines of
/// a rules file never changes what the file parses to, success or error.
pub proof fn law_skipped_line_insertion(lines: Seq<Seq<char>>, line: Seq<char>, i: int)
    requires
        forall|k: int| 0 <= k < lines.len() ==> lacks(#[trigger] lines[k], '\n'),
        lacks(line, '\n'),
        is_skipped_line(line),
        0 <= i <= lines.len(),
    ensures
        spec_parse_rules(join(lines.take(i) + seq![line] + lines.skip(i), '\n')) == spec_parse_rules(
            join(lines, '\n'),
        ),
{
    let longer = lines.take(i) + seq![line] + lines.skip(i);
    let fmt = Format::Rules;
    let st = initial_state();
    assert forall|k: int| 0 <= k < longer.len() implies lacks(#[trigger] longer[k], '\n') by {
        if k < i {
            assert(longer[k] == lines[k]);
        } else if k > i {
            assert(longer[k] == lines[k - 1]);
        } else {
            assert(longer[k] == line);
        }
    }
    lemma_split_join(longer, '\n');
    lemma_run_append(fmt, lines.take(i) + seq![line], lines.skip(i), st);
    lemma_run_append(fmt, lines.take(i), seq![line], st);
    assert(seq![line].drop_first().len() == 0);
    match run(fmt, lines.take(i), st) {
        Ok(mid) => {
            assert(seq![line][0] == line);
            assert(step(fmt, mid, line) == Ok::<_, PolicyErrorView>(mid));
            assert(run(fmt, seq![line].drop_first(), mid) == Ok::<_, PolicyErrorView>(mid));
            assert(run(fmt, seq![line], mid) == Ok::<_, PolicyErrorView>(mid));
        },
        Err(_) => {},
    }
    lemma_run_append(fmt, lines.take(i), lines.skip(i), st);
    assert(lines.take(i) + lines.skip(i) =~= lines);
    assert(longer =~= (lines.take(i) + seq![line]) + lines.skip(i));
    if lines.len() == 0 {
        // The empty file has one empty line, which is skipped like `line`.
        let empty = Seq::<char>::empty();
        assert(join(lines, '\n') == empty);
        lemma_find_first(empty, '\n', 0);
        assert(split(empty, '\n') == seq![empty]);
        assert(trim_start(empty) == empty);
        assert(is_skipped_line(empty));
        assert(seq![empty].drop_first().len() == 0);
        assert(seq![empty][0] == empty);
        assert(step(fmt, st, empty) == Ok::<_, PolicyErrorView>(st));
        assert(run(fmt, seq![empty].drop_first(), st) == Ok::<_, PolicyErrorView>(st));
        assert(run(fmt, seq![empty], st) == Ok::<_, PolicyErrorView>(st));
        assert(lines.take(i) + lines.skip(i) =~= Seq::<Seq<char>>::empty());
    } else {
        lemma_split_join(lines, '\n');
    }
}

/// Every character of `w` is whitespace other than a line break.
pub open spec fn blank_run(w: Seq<char>) -> bool {
    forall|j: int| 0 <= j < w.len() ==> is_space(#[trigger] w[j]) && w[j] != '\n'
}

/// Trailing whitespace is dropped by `trim_end`.
proof fn lemma_trim_end_spaces(k: Seq<char>, w: Seq<char>)
    requires
        blank_run(w),
    ensures
        trim_end(k + w) == trim_end(k),
    decreases w.len(),
{
    if w.len() == 0 {
        assert(k + w =~= k);
    } else {
        assert((k + w).last() == w.last());
        assert((k + w).drop_last() =~= k + w.drop_last());
        assert(blank_run(w.drop_last())) by {
            assert forall|j: int| 0 <= j < w.drop_last().len() implies is_space(
                #[trigger] w.drop_last()[j],
            ) && w.drop_last()[j] != '\n' by {
                assert(w.drop_last()[j] == w[j]);
            }
        }
        lemma_trim_end_spaces(k, w.drop_last());
    }
}

/// Leading whitespace is dropped by `trim_start`.
proof fn lemma_trim_start_spaces(w: Seq<char>, v: Seq<char>)
    requires
        blank_run(w),
    ensures
        trim_start(w + v) == trim_start(v),
    decreases w.len(),
{
    if w.len() == 0 {
        assert(w + v =~= v);
    } else {
        assert((w + v)[0] == w[0]);
        assert((w + v).drop_first() =~= w.drop_first() + v);
        assert(blank_run(w.drop_first())) by {
            assert forall|j: int| 0 <= j < w.drop_first().len() implies is_space(
                #[trigger] w.drop_first()[j],
            ) && w.drop_first()[j] != '\n' by {
                assert(w.drop_first()[j] == w[j + 1]);
            }
        }
        lemma_trim_start_spaces(w.drop_first(), v);
    }
}

/// Reading a file whose last line is `a` or `b` gives the same result when
/// both lines act alike on every parser state.
proof fn lemma_same_last_line(lines: Seq<Seq<char>>, a: Seq<char>, b: Seq<char>)
    requires
        forall|k: int| 0 <= k < lines.len() ==> lacks(#[trigger] lines[k], '\n'),
        lacks(a, '\n'),
        lacks(b, '\n'),
        forall|st: ParseState| #[trigger] step(Format::Rules, st, a) == step(Format::Rules, st, b),
    ensures
        spec_parse_rules(join(lines.push(a), '\n')) == spec_parse_rules(join(lines.push(b), '\n')),
{
    let fmt = Format::Rules;
    let st = initial_state();
    assert forall|k: int| 0 <= k < lines.push(a).len() implies lacks(
        #[trigger] lines.push(a)[k],
        '\n',
    ) by {
        if k < lines.len() {
            assert(lines.push(a)[k] == lines[k]);
        }
    }
    assert forall|k: int| 0 <= k < lines.push(b).len() implies lacks(
        #[trigger] lines.push(b)[k],
        '\n',
    ) by {
        if k < lines.len() {
            assert(lines.push(b)[k] == lines[k]);
        }
    }
    lemma_split_join(lines.push(a), '\n');
    lemma_split_join(lines.push(b), '\n');
    assert(lines.push(a) =~= lines + seq![a]);
    assert(lines.push(b) =~= lines + seq![b]);
    lemma_run_append(fmt, lines, seq![a], st);
    lemma_run_append(fmt, lines, seq![b], st);
    match run(fmt, lines, st) {
        Ok(mid) => {
            assert(seq![a][0] == a);
            assert(seq![b][0] == b);
            assert(seq![a].drop_first().len() == 0);
            assert(seq![b].drop_first().len() == 0);
            assert(step(fmt, mid, a) == step(fmt, mid, b));
            match step(fmt, mid, a) {
                Ok(s2) => {
                    assert(run(fmt, seq![a].drop_first(), s2) == Ok::<_, PolicyErrorView>(s2));
                    assert(run(fmt, seq![b].drop_first(), s2) == Ok::<_, PolicyErrorView>(s2));
                },
                Err(_) => {},
            }
            assert(run(fmt, seq![a], mid) == run(fmt, seq![b], mid));
        },
        Err(_) => {},
    }
}

/// Whitespace around the `=` of a rules directive never changes what the
/// file reads as: `key=value` and `key <spaces>=<spaces> value` give the same
/// result, success or error, for every key and value.
pub proof fn law_rules_spaces_around_equals(
    lines: Seq<Seq<char>>,
    key: Seq<char>,
    value: Seq<char>,
    before: Seq<char>,
    after: Seq<char>,
)
    requires
        forall|k: int| 0 <= k < lines.len() ==> lacks(#[trigger] lines[k], '\n'),
        key.len() > 0,
        !is_space(key[0]),
        !is_space(key.last()),
        lacks(key, '='),
        lacks(key, '\n'),
        value.len() > 0,
        !is_space(value[0]),
        !is_space(value.last()),
        lacks(value, '\n'),
        blank_run(before),
        blank_run(after),
    ensures
        spec_parse_rules(join(lines.push(key + seq!['='] + value), '\n')) == spec_parse_rules(
            join(lines.push(key + before + seq!['='] + after + value), '\n'),
        ),
{
    let a = key + seq!['='] + value;
    let b = key + before + seq!['='] + after + value;
    assert(a[0] == key[0] && a.last() == value.last());
    assert(b[0] == key[0] && b.last() == value.last());
    lemma_trim_unchanged(a);
    lemma_trim_unchanged(b);
    lemma_trim_unchanged(key);
    lemma_trim_unchanged(value);
    assert forall|j: int| 0 <= j < a.len() implies a[j] != '\n' by {
        if j < key.len() {
            assert(a[j] == key[j]);
        } else if j > key.len() {
            assert(a[j] == value[j - key.len() - 1]);
        }
    }
    assert forall|j: int| 0 <= j < b.len() implies b[j] != '\n' by {
        if j < key.len() {
            assert(b[j] == key[j]);
        } else if j < key.len() + before.len() {
            assert(b[j] == before[j - key.len()]);
        } else if key.len() + before.len() < j < key.len() + before.len() + 1 + after.len() {
            assert(b[j] == after[j - key.len() - before.len() - 1]);
        } else if j >= key.len() + before.len() + 1 + after.len() {
            assert(b[j] == value[j - key.len() - before.len() - 1 - after.len()]);
        }
    }
    // Where the `=` is, and what lies on either side of it.
    assert forall|j: int| 0 <= j < key.len() implies a[j] != '=' by {
        assert(a[j] == key[j]);
    }
    lemma_find_first(a, '=', key.len() as int);
    assert(a.take(key.len() as int) =~= key);
    assert(a.skip(key.len() as int + 1) =~= value);
    let i: int = (key.len() + before.len()) as int;
    assert forall|j: int| 0 <= j < i implies b[j] != '=' by {
        if j < key.len() {
            assert(b[j] == key[j]);
        } else {
            assert(b[j] == before[j - key.len()]);
            assert(is_space(before[j - key.len()]));
        }
    }
    lemma_find_first(b, '=', i);
    assert(b.take(i) =~= key + before);
    assert(b.skip(i + 1) =~= after + value);
    assert(trim_start(key + before) == key + before);
    lemma_trim_end_spaces(key, before);
    lemma_trim_start_spaces(after, value);
    assert(split_pair(a, '=') == split_pair(b, '='));
    assert forall|st: ParseState| #[trigger] step(Format::Rules, st, a) == step(
        Format::Rules,
        st,
        b,
    ) by {}
    lemma_same_last_line(lines, a, b);
}

// ---------------------------------------------------------------------------
// Validation
// ---------------------------------------------------------------------------

/// A number's rendering is fixed by the text that follows it, as long as
/// that text does not start with a digit.
proof fn lemma_decimal_prefix(a: nat, b: nat, s1: Seq<char>, s2: Seq<char>)
    requires
        decimal(a) + s1 == decimal(b) + s2,
        s1.len() > 0,
        s2.len() > 0,
        !is_digit(s1[0]),
        !is_digit(s2[0]),
    ensures
        a == b,
{
    lemma_decimal(a);
    lemma_decimal(b);
    let da = decimal(a);
    let db = decimal(b);
    if da.len() < db.len() {
        assert((da + s1)[da.len() as int] == s1[0]);
        assert((db + s2)[da.len() as int] == db[da.len() as int]);
        assert(is_digit(db[da.len() as int]));
    } else if db.len() < da.len() {
        assert((db + s2)[db.len() as int] == s2[0]);
        assert((da + s1)[db.len() as int] == da[db.len() as int]);
        assert(is_digit(da[db.len() as int]));
    } else {
        assert forall|j: int| 0 <= j < da.len() implies da[j] == db[j] by {
            assert((da + s1)[j] == da[j]);
            assert((db + s2)[j] == db[j]);
        }
        assert(da =~= db);
    }
}

/// The number of character classes a policy requires.
pub open spec fn required_classes(p: PasswordPolicy) -> nat {
    (if p.require_upper { 1nat } else { 0nat }) + (if p.require_lower { 1nat } else { 0nat })
        + (if p.require_digit { 1nat } else { 0nat }) + (if p.require_symbol { 1nat } else { 0nat })
}

/// `validate` reports "max_length (m) is less than min_length (n)" exactly
/// when the policy's maximum length is `m` and `m` is below its minimum
/// length, whatever character classes it requires.
pub proof fn law_validate_length_warning(p: PasswordPolicy, m: u32)
    ensures
        policy_warnings(p).contains(
            "max_length ("@ + decimal(m as nat) + ") is less than min_length ("@ + decimal(
                p.min_length as nat,
            ) + "); no password can satisfy both"@,
        ) <==> (p.max_length == Some(m) && m < p.min_length),
{
    reveal_strlit("max_length (");
    reveal_strlit(") is less than min_length (");
    let head = "max_length ("@;
    let tail = ") is less than min_length ("@ + decimal(p.min_length as nat)
        + "); no password can satisfy both"@;
    let x = "max_length ("@ + decimal(m as nat) + ") is less than min_length ("@ + decimal(
        p.min_length as nat,
    ) + "); no password can satisfy both"@;
    assert(x =~= head + (decimal(m as nat) + tail));
    let w = policy_warnings(p);
    lemma_decimal(m as nat);
    if w.contains(x) {
        let i = choose|i: int| 0 <= i < w.len() && w[i] == x;
        // The class warning starts with a digit, the length warning with `m`.
        lemma_decimal(required_classes(p));
        assert(x[0] == 'm');
        if let Some(mx) = p.max_length {
            if mx < p.min_length && i == 0 {
                let y = "max_length ("@ + decimal(mx as nat) + ") is less than min_length ("@
                    + decimal(p.min_length as nat) + "); no password can satisfy both"@;
                assert(w[0] == y);
                assert(y =~= head + (decimal(mx as nat) + tail));
                assert(x.skip(head.len() as int) =~= decimal(m as nat) + tail);
                assert(y.skip(head.len() as int) =~= decimal(mx as nat) + tail);
                lemma_decimal_prefix(m as nat, mx as nat, tail, tail);
            } else {
                assert(is_digit(w[i][0]));
            }
        } else {
            assert(is_digit(w[i][0]));
        }
    }
    if p.max_length == Some(m) && m < p.min_length {
        assert(w[0] == x);
    }
}

/// `validate` reports "n character classes are required but min_length (k)
/// is too short" exactly when the policy requires `n` classes and `n` is
/// above its minimum length `k`, whatever its maximum length.
pub proof fn law_validate_classes_warning(p: PasswordPolicy, n: nat)
    ensures
        policy_warnings(p).contains(
            decimal(n) + " character classes are required but min_length ("@ + decimal(
                p.min_length as nat,
            ) + ") is too short to fit one of each"@,
        ) <==> (n == required_classes(p) && required_classes(p) > p.min_length),
{
    reveal_strlit(" character classes are required but min_length (");
    reveal_strlit("max_length (");
    let tail = " character classes are required but min_length ("@ + decimal(p.min_length as nat)
        + ") is too short to fit one of each"@;
    let x = decimal(n) + " character classes are required but min_length ("@ + decimal(
        p.min_length as nat,
    ) + ") is too short to fit one of each"@;
    assert(x =~= decimal(n) + tail);
    let w = policy_warnings(p);
    lemma_decimal(n);
    assert(is_digit(x[0]));
    if w.contains(x) {
        let i = choose|i: int| 0 <= i < w.len() && w[i] == x;
        let c = required_classes(p);
        if c > p.min_length && i == w.len() - 1 {
            let y = decimal(c) + tail;
            assert(w[i] =~= y);
            assert(x =~= decimal(n) + tail);
            lemma_decimal_prefix(n, c, tail, tail);
        } else {
            assert(w[i][0] == 'm');
        }
    }
    if n == required_classes(p) && required_classes(p) > p.min_length {
        assert(w[w.len() - 1] =~= x);
    }
}

/// `validate` reports nothing but these two warnings, each at most once,
/// and the length warning first.
pub proof fn law_validate_count_and_order(p: PasswordPolicy)
    ensures
        ({
            let lc = p.max_length matches Some(m) && m < p.min_length;
            let cc = required_classes(p) > p.min_length;
            let w = policy_warnings(p);
            &&& w.len() == (if lc { 1int } else { 0int }) + (if cc { 1int } else { 0int })
            &&& lc ==> w[0] == "max_length ("@ + decimal(p.max_length->0 as nat)
                + ") is less than min_length ("@ + decimal(p.min_length as nat)
                + "); no password can satisfy both"@
        }),
{
}

// ---------------------------------------------------------------------------
// pwquality.conf
// ---------------------------------------------------------------------------

/// A number as `u32`/`i32` parsing accepts it is made of digits and signs
/// only, so it holds no whitespace, `=` or line break.
proof fn lemma_number_text(v: Seq<char>)
    requires
        u32_value(v) is Some || i32_value(v) is Some,
    ensures
        v.len() > 0,
        forall|j: int| 0 <= j < v.len() ==> !is_space(#[trigger] v[j]) && v[j] != '=' && v[j] != '\n',
{
    let d = v.drop_first();
    if v.len() > 0 && (v[0] == '+' || v[0] == '-') {
        assert(all_digits(d));
        assert forall|j: int| 0 <= j < v.len() implies !is_space(#[trigger] v[j]) && v[j] != '='
            && v[j] != '\n' by {
            if j > 0 {
                assert(v[j] == d[j - 1]);
                assert(is_digit(d[j - 1]));
            }
        }
    } else {
        assert(all_digits(v));
        assert forall|j: int| 0 <= j < v.len() implies !is_space(#[trigger] v[j]) && v[j] != '='
            && v[j] != '\n' by {
            assert(is_digit(v[j]));
        }
    }
}

/// The directive names are distinct words without whitespace or `=`.
proof fn lemma_directive(d: Directive)
    ensures
        directive_name(d).len() > 0,
        !is_space(directive_name(d)[0]),
        !is_space(directive_name(d).last()),
        directive_name(d)[0] != '#',
        lacks(directive_name(d), '='),
        lacks(directive_name(d), '\n'),
        key_directive(directive_name(d)) == Some(d),
{
    reveal_strlit("minlen");
    reveal_strlit("maxrepeat");
    reveal_strlit("dcredit");
    reveal_strlit("ucredit");
    reveal_strlit("lcredit");
    reveal_strlit("ocredit");
    let k = directive_name(d);
    assert forall|g: Directive| g != d implies directive_name(g) != k by {
        let h = directive_name(g);
        if h.len() == k.len() {
            assert(h[0] != k[0] || h[1] != k[1]);
        }
    }
    assert(lacks(k, '='));
    assert(lacks(k, '\n'));
}

/// Running the lines with one more at the end runs that line last.
proof fn lemma_pwquality_run_push(a: Seq<Seq<char>>, x: Seq<char>, st: ParseState)
    ensures
        pwquality_run(a.push(x), st) == (match pwquality_run(a, st) {
            Ok(mid) => pwquality_step(mid, x),
            Err(e) => Err(e),
        }),
    decreases a.len(),
{
    if a.len() == 0 {
        assert(a.push(x) =~= seq![x]);
        assert(seq![x][0] == x);
        assert(seq![x].drop_first().len() == 0);
        match pwquality_step(st, x) {
            Ok(s2) => assert(pwquality_run(seq![x].drop_first(), s2) == Ok::<_, PolicyErrorView>(
                s2,
            )),
            Err(_) => {},
        }
    } else {
        assert(a.push(x)[0] == a[0]);
        assert(a.push(x).drop_first() =~= a.drop_first().push(x));
        match pwquality_step(st, a[0]) {
            Ok(st2) => lemma_pwquality_run_push(a.drop_first(), x, st2),
            Err(_) => {},
        }
    }
}

/// A file that reads as a policy, followed by one more directive line
/// `name=value`, reads as that policy with the directive applied.
proof fn lemma_pwquality_append(lines: Seq<Seq<char>>, d: Directive, value: Seq<char>)
    requires
        forall|k: int| 0 <= k < lines.len() ==> lacks(#[trigger] lines[k], '\n'),
        u32_value(value) is Some || i32_value(value) is Some,
    ensures
        spec_parse_pwquality(join(lines, '\n')) matches Ok(p) ==> spec_parse_pwquality(
            join(lines.push(directive_name(d) + seq!['='] + value), '\n'),
        ) == (match apply_directive(
            ParseState { policy: p, min_length_seen: true },
            d,
            directive_name(d),
            value,
        ) {
            Ok(st) => Ok::<_, PolicyErrorView>(st.policy),
            Err(e) => Err(e),
        }),
{
    if let Ok(p) = spec_parse_pwquality(join(lines, '\n')) {
        let name = directive_name(d);
        let line = name + seq!['='] + value;
        lemma_directive(d);
        lemma_number_text(value);
        if lines.len() == 0 {
            // An empty file has one empty line and no `minlen`.
            let empty = Seq::<char>::empty();
            lemma_find_first(empty, '\n', 0);
            assert(split(empty, '\n') == seq![empty]);
            lemma_pwquality_run_push(Seq::empty(), empty, initial_state());
            assert(Seq::<Seq<char>>::empty().push(empty) =~= seq![empty]);
            assert(false);
        }
        assert forall|j: int| 0 <= j < line.len() implies line[j] != '\n' by {
            if j < name.len() {
                assert(line[j] == name[j]);
            } else if j > name.len() {
                assert(line[j] == value[j - name.len() - 1]);
            }
        }
        assert forall|k: int| 0 <= k < lines.push(line).len() implies lacks(
            #[trigger] lines.push(line)[k],
            '\n',
        ) by {
            if k < lines.len() {
                assert(lines.push(line)[k] == lines[k]);
            }
        }
        lemma_split_join(lines, '\n');
        lemma_split_join(lines.push(line), '\n');
        lemma_pwquality_run_push(lines, line, initial_state());
        // The line itself.
        assert(line[0] == name[0] && line.last() == value.last());
        lemma_trim_unchanged(line);
        lemma_trim_unchanged(name);
        lemma_trim_unchanged(value);
        assert forall|j: int| 0 <= j < name.len() implies line[j] != '=' by {
            assert(line[j] == name[j]);
        }
        lemma_find_first(line, '=', name.len() as int);
        assert(line.take(name.len() as int) =~= name);
        assert(line.skip(name.len() as int + 1) =~= value);
    }
}

/// A `ucredit` line sets the upper-case requirement, to whether the credit
/// is negative, and leaves every other field as it was.
pub proof fn law_pwquality_ucredit(lines: Seq<Seq<char>>, value: Seq<char>, c: i32)
    requires
        forall|k: int| 0 <= k < lines.len() ==> lacks(#[trigger] lines[k], '\n'),
        i32_value(value) == Some(c),
    ensures
        spec_parse_pwquality(join(lines, '\n')) matches Ok(p) ==> spec_parse_pwquality(
            join(lines.push("ucredit="@ + value), '\n'),
        ) == Ok::<_, PolicyErrorView>(PasswordPolicy { require_upper: c < 0, ..p }),
{
    reveal_strlit("ucredit=");
    reveal_strlit("ucredit");
    assert("ucredit="@ =~= directive_name(Directive::UCredit) + seq!['=']);
    lemma_pwquality_append(lines, Directive::UCredit, value);
}

/// An `lcredit` line sets the lower-case requirement, to whether the credit
/// is negative, and leaves every other field as it was.
pub proof fn law_pwquality_lcredit(lines: Seq<Seq<char>>, value: Seq<char>, c: i32)
    requires
        forall|k: int| 0 <= k < lines.len() ==> lacks(#[trigger] lines[k], '\n'),
        i32_value(value) == Some(c),
    ensures
        spec_parse_pwquality(join(lines, '\n')) matches Ok(p) ==> spec_parse_pwquality(
            join(lines.push("lcredit="@ + value), '\n'),
        ) == Ok::<_, PolicyErrorView>(PasswordPolicy { require_lower: c < 0, ..p }),
{
    reveal_strlit("lcredit=");
    reveal_strlit("lcredit");
    assert("lcredit="@ =~= directive_name(Directive::LCredit) + seq!['=']);
    lemma_pwquality_append(lines, Directive::LCredit, value);
}

/// A `dcredit` line sets the digit requirement, to whether the credit is
/// negative, and leaves every other field as it was.
pub proof fn law_pwquality_dcredit(lines: Seq<Seq<char>>, value: Seq<char>, c: i32)
    requires
        forall|k: int| 0 <= k < lines.len() ==> lacks(#[trigger] lines[k], '\n'),
        i32_value(value) == Some(c),
    ensures
        spec_parse_pwquality(join(lines, '\n')) matches Ok(p) ==> spec_parse_pwquality(
            join(lines.push("dcredit="@ + value), '\n'),
        ) == Ok::<_, PolicyErrorView>(PasswordPolicy { require_digit: c < 0, ..p }),
{
    reveal_strlit("dcredit=");
    reveal_strlit("dcredit");
    assert("dcredit="@ =~= directive_name(Directive::DCredit) + seq!['=']);
    lemma_pwquality_append(lines, Directive::DCredit, value);
}

/// An `ocredit` line sets the symbol requirement, to whether the credit is
/// negative, and leaves every other field as it was.
pub proof fn law_pwquality_ocredit(lines: Seq<Seq<char>>, value: Seq<char>, c: i32)
    requires
        forall|k: int| 0 <= k < lines.len() ==> lacks(#[trigger] lines[k], '\n'),
        i32_value(value) == Some(c),
    ensures
        spec_parse_pwquality(join(lines, '\n')) matches Ok(p) ==> spec_parse_pwquality(
            join(lines.push("ocredit="@ + value), '\n'),
        ) == Ok::<_, PolicyErrorView>(PasswordPolicy { require_symbol: c < 0, ..p }),
{
    reveal_strlit("ocredit=");
    reveal_strlit("ocredit");
    assert("ocredit="@ =~= directive_name(Directive::OCredit) + seq!['=']);
    lemma_pwquality_append(lines, Directive::OCredit, value);
}

/// A `minlen` line sets the minimum length and leaves every other field as
/// it was.
pub proof fn law_pwquality_minlen(lines: Seq<Seq<char>>, value: Seq<char>, n: u32)
    requires
        forall|k: int| 0 <= k < lines.len() ==> lacks(#[trigger] lines[k], '\n'),
        u32_value(value) == Some(n),
    ensures
        spec_parse_pwquality(join(lines, '\n')) matches Ok(p) ==> spec_parse_pwquality(
            join(lines.push("minlen="@ + value), '\n'),
        ) == Ok::<_, PolicyErrorView>(PasswordPolicy { min_length: n, ..p }),
{
    reveal_strlit("minlen=");
    reveal_strlit("minlen");
    assert("minlen="@ =~= directive_name(Directive::MinLen) + seq!['=']);
    lemma_pwquality_append(lines, Directive::MinLen, value);
}

/// A `maxrepeat` line sets the maximum run of repeated characters and
/// leaves every other field as it was.
pub proof fn law_pwquality_maxrepeat(lines: Seq<Seq<char>>, value: Seq<char>, n: u32)
    requires
        forall|k: int| 0 <= k < lines.len() ==> lacks(#[trigger] lines[k], '\n'),
        u32_value(value) == Some(n),
    ensures
        spec_parse_pwquality(join(lines, '\n')) matches Ok(p) ==> spec_parse_pwquality(
            join(lines.push("maxrepeat="@ + value), '\n'),
        ) == Ok::<_, PolicyErrorView>(PasswordPolicy { max_repeated_chars: Some(n), ..p }),
{
    reveal_strlit("maxrepeat=");
    reveal_strlit("maxrepeat");
    assert("maxrepeat="@ =~= directive_name(Directive::MaxRepeat) + seq!['=']);
    lemma_pwquality_append(lines, Directive::MaxRepeat, value);
}

/// The names of the directives that a policy is read from.
pub open spec fn pwquality_names() -> Seq<Seq<char>> {
    seq!["minlen"@, "maxrepeat"@, "dcredit"@, "ucredit"@, "lcredit"@, "ocredit"@]
}

/// A line that carries none of the directives read (a blank line, a `#`
/// comment, a bare flag, or any other directive) never changes what a
/// `pwquality.conf` text reads as, success or error.
pub proof fn law_pwquality_ignored_line(lines: Seq<Seq<char>>, line: Seq<char>)
    requires
        forall|k: int| 0 <= k < lines.len() ==> lacks(#[trigger] lines[k], '\n'),
        lacks(line, '\n'),
        ({
            let t = trim(line);
            ||| t.len() == 0
            ||| t[0] == '#'
            ||| match find(t, '=') {
                None => true,
                Some(i) => !pwquality_names().contains(trim(t.take(i))),
            }
        }),
    ensures
        spec_parse_pwquality(join(lines.push(line), '\n')) == spec_parse_pwquality(
            join(lines, '\n'),
        ),
{
    let names = pwquality_names();
    assert(names[0] == directive_name(Directive::MinLen));
    assert(names[1] == directive_name(Directive::MaxRepeat));
    assert(names[2] == directive_name(Directive::DCredit));
    assert(names[3] == directive_name(Directive::UCredit));
    assert(names[4] == directive_name(Directive::LCredit));
    assert(names[5] == directive_name(Directive::OCredit));
    assert forall|st: ParseState| #[trigger] pwquality_step(st, line) == Ok::<_, PolicyErrorView>(
        st,
    ) by {
        let t = trim(line);
        if t.len() > 0 && t[0] != '#' {
            if let Some(i) = find(t, '=') {
                let key = trim(t.take(i));
                if key_directive(key) is Some {
                    let d = key_directive(key)->0;
                    assert(key == directive_name(d));
                    match d {
                        Directive::MinLen => assert(names[0] == key),
                        Directive::MaxRepeat => assert(names[1] == key),
                        Directive::DCredit => assert(names[2] == key),
                        Directive::UCredit => assert(names[3] == key),
                        Directive::LCredit => assert(names[4] == key),
                        Directive::OCredit => assert(names[5] == key),
                    }
                }
            }
        }
    }
    let st = initial_state();
    assert forall|k: int| 0 <= k < lines.push(line).len() implies lacks(
        #[trigger] lines.push(line)[k],
        '\n',
    ) by {
        if k < lines.len() {
            assert(lines.push(line)[k] == lines[k]);
        }
    }
    lemma_split_join(lines.push(line), '\n');
    lemma_pwquality_run_push(lines, line, st);
    if lines.len() == 0 {
        let empty = Seq::<char>::empty();
        lemma_find_first(empty, '\n', 0);
        assert(split(empty, '\n') == seq![empty]);
        lemma_pwquality_run_push(Seq::empty(), empty, st);
        assert(Seq::<Seq<char>>::empty().push(empty) =~= seq![empty]);
        assert(trim_start(empty) == empty);
        assert(pwquality_step(st, empty) == Ok::<_, PolicyErrorView>(st));
        assert(pwquality_run(Seq::empty(), st) == Ok::<_, PolicyErrorView>(st));
    } else {
        lemma_split_join(lines, '\n');
    }
}

/// Migrating a rules file to the query-string format and back loses no
/// field: the query string reads back as the policy the rules file gave,
/// and converting it back gives that policy's rules file.
pub proof fn law_rules_query_rules(input: Seq<char>)
    ensures
        spec_parse_rules(input) matches Ok(p) ==> {
            &&& spec_parse_query(render(Format::Query, p)) == Ok::<_, PolicyErrorView>(p)
            &&& spec_parse_rules(render(Format::Rules, p)) == Ok::<_, PolicyErrorView>(p)
        },
{
    if let Ok(p) = spec_parse_rules(input) {
        law_query_round_trip(p);
        law_rules_round_trip(p);
    }
}

/// Migrating a query string to the rules format and back loses no field.
pub proof fn law_query_rules_query(input: Seq<char>)
    ensures
        spec_parse_query(input) matches Ok(p) ==> {
            &&& spec_parse_rules(render(Format::Rules, p)) == Ok::<_, PolicyErrorView>(p)
            &&& spec_parse_query(render(Format::Query, p)) == Ok::<_, PolicyErrorView>(p)
        },
{
    if let Ok(p) = spec_parse_query(input) {
        law_query_round_trip(p);
        law_rules_round_trip(p);
    }
}

} // verus!
