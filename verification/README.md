# password-policy-convert

Converts a password composition policy between a line-based rules file
(`min_length=12` per line) and a query string
(`minLength=12&upper=1&...`), through a shared `PasswordPolicy`, and checks
a policy's fields against each other (`validate`).

The library is written in Verus and verified:

- `src/text.rs`: whitespace, trimming, splitting, decimal numbers, each
  executable helper specified against a spec function on characters.
- `src/policy.rs`: the policy type, its errors, the two formats (parsers and
  renderers, specified by `spec_parse_rules`, `spec_parse_query` and
  `render`), the conversions and `validate`.
- `src/pwquality.rs`: reading a policy from PAM `pwquality.conf` syntax
  (`minlen`, `maxrepeat` and the class credits; other directives ignored).
- `src/json.rs`: writing a policy as a JSON object and reading one back.
- `src/laws.rs`: proofs that every policy written in either format reads
  back as itself, that both boolean spellings read back, that blank and `#` lines never
  change a rules parse, and that moving a policy between formats loses no field.

`app/main.rs` is the command-line program: it reads a file or stdin, calls
the library and prints the result.
