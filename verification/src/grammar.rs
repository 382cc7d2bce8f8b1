//! The grammar of an invocation, as functions on text.
//!
//! Each function takes the text that is left to read and gives either what it
//! recognized together with the text behind it, or the place where it stopped
//! and what it expected there. The recognizers of the parser compute exactly
//! these functions.
use crate::error::{ErrorKind, Failure};
use crate::record::{CurlView, OptionView};
use crate::strmap::{Pairs, TextMap};
use crate::token::{lemma_run_len_ends, run_len, same_char, starts_with, strip, CharClass};
use vstd::prelude::*;

verus! {

/// What a recognizer gives: the text behind what it recognized and its value, or a failure.
pub type Outcome<T> = Result<(Seq<char>, T), Failure>;

/// The success with the value `value`, in front of the text `rest`.
pub open spec fn done<T>(rest: Seq<char>, value: T) -> Outcome<T> {
    Ok((rest, value))
}

/// The failure of kind `kind` at the text `rest`.
pub open spec fn fail<T>(rest: Seq<char>, kind: ErrorKind) -> Outcome<T> {
    Err(Failure { rest, kind })
}

/// The longest leading run of `s` in `class`.
pub open spec fn run(s: Seq<char>, class: CharClass) -> Seq<char> {
    s.take(run_len(s, class) as int)
}

/// What follows the longest leading run of `s` in `class`.
pub open spec fn after_run(s: Seq<char>, class: CharClass) -> Seq<char> {
    s.skip(run_len(s, class) as int)
}

/// What follows the first of the literals `t` and `u` that stands at the front of `s`.
pub open spec fn strip_either(s: Seq<char>, t: Seq<char>, u: Seq<char>) -> Option<Seq<char>> {
    match strip(s, t, false) {
        Some(rest) => Some(rest),
        None => strip(s, u, false),
    }
}

/// What follows the literal `t` at the front of `s`, or `s` itself where `t` is not there.
pub open spec fn skip_optional(s: Seq<char>, t: Seq<char>) -> Seq<char> {
    match strip(s, t, false) {
        Some(rest) => rest,
        None => s,
    }
}

/// A key: the longest leading run of letters, digits, `-` and `_`. It may be empty.
pub open spec fn spec_key(s: Seq<char>) -> Outcome<Seq<char>> {
    Ok((after_run(s, CharClass::Key), run(s, CharClass::Key)))
}

/// The body of a quoted text: every character up to the next single quote,
/// which has to be there, with the text behind that quote.
pub open spec fn spec_quoted(s: Seq<char>) -> Option<(Seq<char>, Seq<char>)> {
    match strip(after_run(s, CharClass::Unquoted), "'"@, false) {
        Some(rest) => Some((rest, run(s, CharClass::Unquoted))),
        None => None,
    }
}

/// The map that a list of pairs stands for: a later pair replaces an earlier one of the same key.
pub open spec fn collect(pairs: Pairs) -> TextMap
    decreases pairs.len(),
{
    if pairs.len() == 0 {
        TextMap::empty()
    } else {
        collect(pairs.drop_last()).insert(pairs.last().0, pairs.last().1)
    }
}

/// The cookie pairs from `s` on, behind the pairs `seen`: optional whitespace,
/// a name that is not empty, `=`, and as value every character up to the next
/// `;` or single quote; then, behind a `;`, the next pair. One pair at least.
pub open spec fn spec_cookie_list(s: Seq<char>, seen: Pairs) -> Outcome<Pairs>
    decreases s.len(),
    via spec_cookie_list_decreases
{
    let s1 = after_run(s, CharClass::Space);
    let name = run(s1, CharClass::Key);
    let s2 = after_run(s1, CharClass::Key);
    if name.len() == 0 {
        fail(s1, ErrorKind::CookiePair)
    } else {
        match strip(s2, "="@, false) {
            None => fail(s2, ErrorKind::CookiePair),
            Some(s3) => {
                let value = run(s3, CharClass::CookieValue);
                let s4 = after_run(s3, CharClass::CookieValue);
                match strip(s4, ";"@, false) {
                    Some(s5) => spec_cookie_list(s5, seen.push((name, value))),
                    None => Ok((s4, seen.push((name, value)))),
                }
            },
        }
    }
}

#[via_fn]
proof fn spec_cookie_list_decreases(s: Seq<char>, seen: Pairs) {
    let s1 = after_run(s, CharClass::Space);
    let s2 = after_run(s1, CharClass::Key);
    lemma_run_len_ends(s, CharClass::Space);
    lemma_run_len_ends(s1, CharClass::Key);
    if let Some(s3) = strip(s2, "="@, false) {
        lemma_run_len_ends(s3, CharClass::CookieValue);
    }
}

/// The value of a cookie header: its pairs, as a map.
pub open spec fn spec_cookie_pairs(s: Seq<char>) -> Outcome<TextMap> {
    match spec_cookie_list(s, Pairs::empty()) {
        Ok((rest, pairs)) => Ok((rest, collect(pairs))),
        Err(e) => Err(e),
    }
}

/// The cookie header option: `-H ` or `--header `, a single quote, `Cookie: `
/// in any case, the cookie pairs, and the closing quote.
///
/// Where the text does not begin in this way the failure is of kind
/// `Prefix`; behind `Cookie: ` the option is settled, and a failure is of
/// another kind.
pub open spec fn spec_options_header_cookie(s: Seq<char>) -> Outcome<TextMap> {
    match strip_either(s, "-H "@, "--header "@) {
        None => fail(s, ErrorKind::Prefix),
        Some(a) => match strip(a, "'cookie: "@, true) {
            None => fail(a, ErrorKind::Prefix),
            Some(b) => match spec_cookie_pairs(b) {
                Err(e) => Err(e),
                Ok((c, cookies)) => match strip(c, "'"@, false) {
                    None => fail(c, ErrorKind::CloseQuote),
                    Some(d) => Ok((d, cookies)),
                },
            },
        },
    }
}

/// Whether `name` is the name of the cookie header, in whatever case.
pub open spec fn is_cookie_name(name: Seq<char>) -> bool {
    name.len() == 6 && starts_with(name, "cookie"@, true)
}

/// The header option: `-H '` or `--header '`, a key as name, `: `, and the
/// value up to the closing quote.
pub open spec fn spec_options_header_(s: Seq<char>) -> Outcome<(Seq<char>, Seq<char>)> {
    match strip_either(s, "-H '"@, "--header '"@) {
        None => fail(s, ErrorKind::Prefix),
        Some(a) => match strip(after_run(a, CharClass::Key), ": "@, false) {
            None => fail(after_run(a, CharClass::Key), ErrorKind::Separator),
            Some(b) => match spec_quoted(b) {
                None => fail(b, ErrorKind::CloseQuote),
                Some((c, value)) => Ok((c, (run(a, CharClass::Key), value))),
            },
        },
    }
}

/// The raw body option: `--data-raw '` and the body up to the closing quote.
pub open spec fn spec_options_data_raw(s: Seq<char>) -> Outcome<Seq<char>> {
    match strip(s, "--data-raw '"@, false) {
        None => fail(s, ErrorKind::Prefix),
        Some(a) => match spec_quoted(a) {
            None => fail(a, ErrorKind::CloseQuote),
            Some((b, body)) => Ok((b, body)),
        },
    }
}

/// The name of a flag: a key behind `--`, or else one character behind `-`.
pub open spec fn spec_flag_name(s: Seq<char>) -> Outcome<Seq<char>> {
    match strip(s, "--"@, false) {
        Some(a) => spec_key(a),
        None => match strip(s, "-"@, false) {
            None => fail(s, ErrorKind::Prefix),
            Some(a) => if a.len() == 0 {
                fail(a, ErrorKind::FlagName)
            } else {
                Ok((a.skip(1), a.take(1)))
            },
        },
    }
}

/// The argument of a flag: a space and a quoted text, if both are there.
pub open spec fn spec_flag_argument(s: Seq<char>) -> Option<(Seq<char>, Seq<char>)> {
    match strip(s, " '"@, false) {
        None => None,
        Some(a) => spec_quoted(a),
    }
}

/// The flag option: the name of the flag, and its argument if one follows.
pub open spec fn spec_options_(s: Seq<char>) -> Outcome<(Seq<char>, Option<Seq<char>>)> {
    match spec_flag_name(s) {
        Err(e) => Err(e),
        Ok((a, name)) => match spec_flag_argument(a) {
            Some((b, argument)) => Ok((b, (name, Some(argument)))),
            None => Ok((a, (name, None))),
        },
    }
}

/// One option: the first of the four shapes that matches, tried in the order
/// cookie header, header, raw body, flag. A cookie header that fails behind
/// its `Cookie: ` fails the option; where no shape matches, the failure is of
/// kind `Option`.
pub open spec fn spec_any_option(s: Seq<char>) -> Outcome<OptionView> {
    match spec_options_header_cookie(s) {
        Ok((rest, cookies)) => Ok((rest, OptionView::Cookies(cookies))),
        Err(e) => if e.kind != ErrorKind::Prefix {
            Err(e)
        } else {
            match spec_options_header_(s) {
                Ok((rest, (name, value))) => Ok((rest, OptionView::Header(name, value))),
                Err(_) => match spec_options_data_raw(s) {
                    Ok((rest, body)) => Ok((rest, OptionView::DataRaw(body))),
                    Err(_) => match spec_options_(s) {
                        Ok((rest, (name, argument))) => Ok(
                            (rest, OptionView::Flag(name, argument)),
                        ),
                        Err(_) => fail(s, ErrorKind::Option),
                    },
                },
            }
        },
    }
}

/// What stands in front of an option: an optional backslash with a line
/// feed, then optional whitespace.
pub open spec fn spec_option_lead(s: Seq<char>) -> Seq<char> {
    after_run(skip_optional(s, "\\\n"@), CharClass::Space)
}

/// Whether `rest` is what is left of `s` behind some of its first characters.
pub open spec fn is_tail_of(rest: Seq<char>, s: Seq<char>) -> bool {
    rest.len() <= s.len() && rest == s.skip(s.len() - rest.len())
}

/// Whether an outcome on `s` speaks of a place in `s`: the text behind the
/// value, or the text at which matching stopped, is a tail of `s`.
pub open spec fn stays_within<T>(outcome: Outcome<T>, s: Seq<char>) -> bool {
    match outcome {
        Ok((rest, _)) => is_tail_of(rest, s),
        Err(failure) => is_tail_of(failure.rest, s),
    }
}

/// Whether an outcome on `s`, where it is a success, has read at least one character.
pub open spec fn advances<T>(outcome: Outcome<T>, s: Seq<char>) -> bool {
    match outcome {
        Ok((rest, _)) => rest.len() < s.len(),
        Err(_) => true,
    }
}

/// A tail of a tail is a tail.
pub proof fn lemma_tail_of_tail(a: Seq<char>, b: Seq<char>, c: Seq<char>)
    requires
        is_tail_of(a, b),
        is_tail_of(b, c),
    ensures
        is_tail_of(a, c),
{
    assert(a =~= c.skip(c.len() - a.len()));
}

/// A text is a tail of itself.
pub proof fn lemma_tail_of_itself(s: Seq<char>)
    ensures
        is_tail_of(s, s),
{
    assert(s =~= s.skip(0));
}

/// What is left behind the first `n` characters is a tail.
pub proof fn lemma_skip_is_tail(s: Seq<char>, n: int)
    requires
        0 <= n <= s.len(),
    ensures
        is_tail_of(s.skip(n), s),
        s.skip(n).len() == s.len() - n,
{
    assert(s.skip(n) =~= s.skip(s.len() - s.skip(n).len()));
}

/// What follows a literal is a tail, shorter by the length of the literal.
pub proof fn lemma_strip_tail(s: Seq<char>, t: Seq<char>, ignore_case: bool)
    ensures
        match strip(s, t, ignore_case) {
            Some(rest) => is_tail_of(rest, s) && rest.len() + t.len() == s.len(),
            None => true,
        },
{
    if starts_with(s, t, ignore_case) {
        lemma_skip_is_tail(s, t.len() as int);
    }
}

/// A run and what follows it make up the text.
pub proof fn lemma_run_tail(s: Seq<char>, class: CharClass)
    ensures
        is_tail_of(after_run(s, class), s),
        run(s, class).len() == run_len(s, class),
        run(s, class).len() + after_run(s, class).len() == s.len(),
        run(s, class) + after_run(s, class) == s,
{
    lemma_run_len_ends(s, class);
    lemma_skip_is_tail(s, run_len(s, class) as int);
    assert(run(s, class) + after_run(s, class) =~= s);
}

/// A quoted body and the quote behind it stand at the front of the text.
pub proof fn lemma_quoted_tail(s: Seq<char>)
    ensures
        match spec_quoted(s) {
            Some((rest, body)) => is_tail_of(rest, s) && body.len() + 1 + rest.len() == s.len(),
            None => true,
        },
{
    reveal_strlit("'");
    let a = after_run(s, CharClass::Unquoted);
    lemma_run_tail(s, CharClass::Unquoted);
    lemma_strip_tail(a, "'"@, false);
    if let Some(rest) = strip(a, "'"@, false) {
        lemma_tail_of_tail(rest, a, s);
    }
}

/// The cookie pairs speak of a place in their text, and a success has read something.
pub proof fn lemma_cookie_list_tail(s: Seq<char>, seen: Pairs)
    ensures
        stays_within(spec_cookie_list(s, seen), s),
        advances(spec_cookie_list(s, seen), s),
    decreases s.len(),
{
    let s1 = after_run(s, CharClass::Space);
    let name = run(s1, CharClass::Key);
    let s2 = after_run(s1, CharClass::Key);
    lemma_run_tail(s, CharClass::Space);
    lemma_run_tail(s1, CharClass::Key);
    lemma_tail_of_tail(s2, s1, s);
    if name.len() != 0 {
        lemma_strip_tail(s2, "="@, false);
        if let Some(s3) = strip(s2, "="@, false) {
            let value = run(s3, CharClass::CookieValue);
            let s4 = after_run(s3, CharClass::CookieValue);
            lemma_tail_of_tail(s3, s2, s);
            lemma_run_tail(s3, CharClass::CookieValue);
            lemma_tail_of_tail(s4, s3, s);
            lemma_strip_tail(s4, ";"@, false);
            if let Some(s5) = strip(s4, ";"@, false) {
                lemma_tail_of_tail(s5, s4, s);
                lemma_cookie_list_tail(s5, seen.push((name, value)));
                match spec_cookie_list(s5, seen.push((name, value))) {
                    Ok((rest, _)) => lemma_tail_of_tail(rest, s5, s),
                    Err(failure) => lemma_tail_of_tail(failure.rest, s5, s),
                }
            }
        }
    }
}

/// What follows one of two literals is a tail, shorter by the length of that literal.
pub proof fn lemma_strip_either_tail(s: Seq<char>, t: Seq<char>, u: Seq<char>)
    ensures
        match strip_either(s, t, u) {
            Some(rest) => is_tail_of(rest, s) && (rest.len() + t.len() == s.len() || rest.len()
                + u.len() == s.len()),
            None => true,
        },
{
    lemma_strip_tail(s, t, false);
    lemma_strip_tail(s, u, false);
}

/// The cookie header option speaks of a place in its text, and a success has read something.
pub proof fn lemma_header_cookie_tail(s: Seq<char>)
    ensures
        stays_within(spec_options_header_cookie(s), s),
        advances(spec_options_header_cookie(s), s),
{
    lemma_tail_of_itself(s);
    reveal_strlit("-H ");
    reveal_strlit("--header ");
    lemma_strip_either_tail(s, "-H "@, "--header "@);
    if let Some(a) = strip_either(s, "-H "@, "--header "@) {
        lemma_strip_tail(a, "'cookie: "@, true);
        if let Some(b) = strip(a, "'cookie: "@, true) {
            lemma_tail_of_tail(b, a, s);
            lemma_cookie_list_tail(b, Pairs::empty());
            match spec_cookie_list(b, Pairs::empty()) {
                Err(failure) => lemma_tail_of_tail(failure.rest, b, s),
                Ok((c, pairs)) => {
                    lemma_tail_of_tail(c, b, s);
                    lemma_strip_tail(c, "'"@, false);
                    if let Some(d) = strip(c, "'"@, false) {
                        lemma_tail_of_tail(d, c, s);
                    }
                },
            }
        }
    }
}

/// The header option speaks of a place in its text, and a success has read something.
pub proof fn lemma_header_tail(s: Seq<char>)
    ensures
        stays_within(spec_options_header_(s), s),
        advances(spec_options_header_(s), s),
{
    lemma_tail_of_itself(s);
    reveal_strlit("-H '");
    reveal_strlit("--header '");
    lemma_strip_either_tail(s, "-H '"@, "--header '"@);
    if let Some(a) = strip_either(s, "-H '"@, "--header '"@) {
        let a1 = after_run(a, CharClass::Key);
        lemma_run_tail(a, CharClass::Key);
        lemma_tail_of_tail(a1, a, s);
        lemma_strip_tail(a1, ": "@, false);
        if let Some(b) = strip(a1, ": "@, false) {
            lemma_tail_of_tail(b, a1, s);
            lemma_quoted_tail(b);
            if let Some((c, value)) = spec_quoted(b) {
                lemma_tail_of_tail(c, b, s);
            }
        }
    }
}

/// The raw body option speaks of a place in its text, and a success has read something.
pub proof fn lemma_data_raw_tail(s: Seq<char>)
    ensures
        stays_within(spec_options_data_raw(s), s),
        advances(spec_options_data_raw(s), s),
{
    lemma_tail_of_itself(s);
    lemma_strip_tail(s, "--data-raw '"@, false);
    if let Some(a) = strip(s, "--data-raw '"@, false) {
        lemma_quoted_tail(a);
        if let Some((b, body)) = spec_quoted(a) {
            lemma_tail_of_tail(b, a, s);
        }
    }
}

/// The flag option speaks of a place in its text, and a success has read something.
pub proof fn lemma_flag_tail(s: Seq<char>)
    ensures
        stays_within(spec_options_(s), s),
        advances(spec_options_(s), s),
        stays_within(spec_flag_name(s), s),
        advances(spec_flag_name(s), s),
{
    lemma_tail_of_itself(s);
    reveal_strlit("--");
    reveal_strlit("-");
    lemma_strip_tail(s, "--"@, false);
    lemma_strip_tail(s, "-"@, false);
    match strip(s, "--"@, false) {
        Some(a) => {
            lemma_run_tail(a, CharClass::Key);
            lemma_tail_of_tail(after_run(a, CharClass::Key), a, s);
        },
        None => {
            if let Some(a) = strip(s, "-"@, false) {
                if a.len() > 0 {
                    lemma_skip_is_tail(a, 1);
                    lemma_tail_of_tail(a.skip(1), a, s);
                }
            }
        },
    }
    if let Ok((a, name)) = spec_flag_name(s) {
        lemma_strip_tail(a, " '"@, false);
        if let Some(b) = strip(a, " '"@, false) {
            lemma_quoted_tail(b);
            if let Some((c, argument)) = spec_quoted(b) {
                lemma_tail_of_tail(c, b, a);
                lemma_tail_of_tail(c, a, s);
            }
        }
    }
}

/// An option speaks of a place in its text, and a success has read something.
pub proof fn lemma_any_option_tail(s: Seq<char>)
    ensures
        stays_within(spec_any_option(s), s),
        advances(spec_any_option(s), s),
{
    lemma_header_cookie_tail(s);
    lemma_header_tail(s);
    lemma_data_raw_tail(s);
    lemma_flag_tail(s);
    lemma_tail_of_itself(s);
}

/// What stands in front of an option is left out by a tail.
pub proof fn lemma_option_lead_tail(s: Seq<char>)
    ensures
        is_tail_of(spec_option_lead(s), s),
{
    let a = skip_optional(s, "\\\n"@);
    lemma_strip_tail(s, "\\\n"@, false);
    lemma_tail_of_itself(s);
    lemma_run_tail(a, CharClass::Space);
    lemma_tail_of_tail(after_run(a, CharClass::Space), a, s);
}

/// The options from `s` on, behind the options `seen`: in front of each
/// option its lead; between two options one space. The list ends where the
/// text ends behind a lead, or where no space follows an option.
pub open spec fn spec_option_list(s: Seq<char>, seen: Seq<OptionView>) -> Outcome<Seq<OptionView>>
    decreases s.len(),
    via spec_option_list_decreases
{
    let t = spec_option_lead(s);
    if t.len() == 0 {
        Ok((t, seen))
    } else {
        match spec_any_option(t) {
            Err(e) => Err(e),
            Ok((u, option)) => match strip(u, " "@, false) {
                Some(v) => spec_option_list(v, seen.push(option)),
                None => Ok((u, seen.push(option))),
            },
        }
    }
}

#[via_fn]
proof fn spec_option_list_decreases(s: Seq<char>, seen: Seq<OptionView>) {
    let t = spec_option_lead(s);
    lemma_option_lead_tail(s);
    lemma_any_option_tail(t);
    if let Ok((u, option)) = spec_any_option(t) {
        lemma_strip_tail(u, " "@, false);
    }
}

/// The command: optional whitespace, `curl`, whitespace, the url in single
/// quotes, and an optional space with a backslash and a line feed. Its value is the url.
pub open spec fn spec_command(s: Seq<char>) -> Outcome<Seq<char>> {
    let s1 = after_run(s, CharClass::Space);
    match strip(s1, "curl"@, false) {
        None => fail(s1, ErrorKind::Command),
        Some(s2) => if run_len(s2, CharClass::Space) == 0 {
            fail(s2, ErrorKind::Whitespace)
        } else {
            match strip(after_run(s2, CharClass::Space), "'"@, false) {
                None => fail(after_run(s2, CharClass::Space), ErrorKind::OpenQuote),
                Some(s3) => match spec_quoted(s3) {
                    None => fail(s3, ErrorKind::CloseQuote),
                    Some((s4, url)) => Ok((skip_optional(s4, " \\\n"@), url)),
                },
            }
        },
    }
}

/// An invocation: the command, then its options, folded into the record of
/// the url from first to last. What the option list did not read stays behind.
pub open spec fn spec_text_curl(s: Seq<char>) -> Outcome<CurlView> {
    match spec_command(s) {
        Err(e) => Err(e),
        Ok((t, url)) => match spec_option_list(t, Seq::empty()) {
            Err(e) => Err(e),
            Ok((rest, options)) => Ok((rest, CurlView::build(url, options))),
        },
    }
}

/// The option list speaks of a place in its text.
pub proof fn lemma_option_list_tail(s: Seq<char>, seen: Seq<OptionView>)
    ensures
        stays_within(spec_option_list(s, seen), s),
    decreases s.len(),
{
    let t = spec_option_lead(s);
    lemma_option_lead_tail(s);
    if t.len() != 0 {
        lemma_any_option_tail(t);
        match spec_any_option(t) {
            Err(failure) => lemma_tail_of_tail(failure.rest, t, s),
            Ok((u, option)) => {
                lemma_tail_of_tail(u, t, s);
                lemma_strip_tail(u, " "@, false);
                if let Some(v) = strip(u, " "@, false) {
                    lemma_tail_of_tail(v, u, s);
                    lemma_option_list_tail(v, seen.push(option));
                    match spec_option_list(v, seen.push(option)) {
                        Ok((rest, _)) => lemma_tail_of_tail(rest, v, s),
                        Err(failure) => lemma_tail_of_tail(failure.rest, v, s),
                    }
                }
            },
        }
    }
}

/// The command speaks of a place in its text, and a success has read something.
pub proof fn lemma_command_tail(s: Seq<char>)
    ensures
        stays_within(spec_command(s), s),
        advances(spec_command(s), s),
{
    reveal_strlit("curl");
    let s1 = after_run(s, CharClass::Space);
    lemma_run_tail(s, CharClass::Space);
    lemma_strip_tail(s1, "curl"@, false);
    if let Some(s2) = strip(s1, "curl"@, false) {
        lemma_tail_of_tail(s2, s1, s);
        let s2b = after_run(s2, CharClass::Space);
        lemma_run_tail(s2, CharClass::Space);
        lemma_tail_of_tail(s2b, s2, s);
        lemma_strip_tail(s2b, "'"@, false);
        if let Some(s3) = strip(s2b, "'"@, false) {
            lemma_tail_of_tail(s3, s2b, s);
            lemma_quoted_tail(s3);
            if let Some((s4, url)) = spec_quoted(s3) {
                lemma_tail_of_tail(s4, s3, s);
                lemma_strip_tail(s4, " \\\n"@, false);
                lemma_tail_of_itself(s4);
                lemma_tail_of_tail(skip_optional(s4, " \\\n"@), s4, s);
            }
        }
    }
}

/// A parse speaks of a place in its input: the text that is handed back
/// behind the record, and the text at which a failed parse stopped, are what
/// is left of the input behind some of its first characters.
pub proof fn lemma_text_curl_tail(s: Seq<char>)
    ensures
        stays_within(spec_text_curl(s), s),
        advances(spec_text_curl(s), s),
{
    lemma_command_tail(s);
    if let Ok((t, url)) = spec_command(s) {
        lemma_option_list_tail(t, Seq::empty());
        match spec_option_list(t, Seq::empty()) {
            Ok((rest, _)) => lemma_tail_of_tail(rest, t, s),
            Err(failure) => lemma_tail_of_tail(failure.rest, t, s),
        }
    }
}

/// A cookie list fails for a malformed pair and for nothing else.
pub proof fn lemma_cookie_list_failure(s: Seq<char>, seen: Pairs)
    ensures
        match spec_cookie_list(s, seen) {
            Ok(_) => true,
            Err(failure) => failure.kind == ErrorKind::CookiePair,
        },
    decreases s.len(),
{
    let s1 = after_run(s, CharClass::Space);
    let name = run(s1, CharClass::Key);
    let s2 = after_run(s1, CharClass::Key);
    if name.len() != 0 {
        if let Some(s3) = strip(s2, "="@, false) {
            let value = run(s3, CharClass::CookieValue);
            let s4 = after_run(s3, CharClass::CookieValue);
            if let Some(s5) = strip(s4, ";"@, false) {
                lemma_run_tail(s, CharClass::Space);
                lemma_run_tail(s1, CharClass::Key);
                lemma_strip_tail(s2, "="@, false);
                lemma_run_tail(s3, CharClass::CookieValue);
                lemma_strip_tail(s4, ";"@, false);
                lemma_cookie_list_failure(s5, seen.push((name, value)));
            }
        }
    }
}

/// A text that begins with a literal begins with each front part of that literal.
proof fn lemma_strip_in_two(s: Seq<char>, t: Seq<char>, u: Seq<char>, v: Seq<char>)
    requires
        strip(s, t, false) is Some,
        t == u + v,
    ensures
        strip(s, u, false) == Some(v + strip(s, t, false)->0),
{
    assert forall|k: int| 0 <= k < u.len() implies same_char(s[k], #[trigger] u[k], false) by {
        assert(same_char(s[k], t[k], false));
        assert(t[k] == u[k]);
    }
    assert forall|k: int| 0 <= k < v.len() implies s[u.len() + k] == v[k] by {
        assert(same_char(s[u.len() + k], t[u.len() + k], false));
        assert(t[u.len() + k] == v[k]);
    }
    assert(s.skip(u.len() as int) =~= v + s.skip(t.len() as int));
}

/// A header of the name `Cookie`, in whatever case, is never taken as a
/// header: the dispatcher gives no header option of that name.
pub proof fn lemma_cookie_header_is_no_header(s: Seq<char>)
    ensures
        match spec_any_option(s) {
            Ok((_, OptionView::Header(name, _))) => !is_cookie_name(name),
            _ => true,
        },
{
    reveal_strlit("-H ");
    reveal_strlit("--header ");
    reveal_strlit("-H '");
    reveal_strlit("--header '");
    reveal_strlit(": ");
    reveal_strlit("cookie");
    reveal_strlit("'cookie: ");
    if let Ok((_, OptionView::Header(name, value))) = spec_any_option(s) {
        if is_cookie_name(name) {
            let inner = strip_either(s, "-H '"@, "--header '"@)->0;
            let behind = after_run(inner, CharClass::Key);
            lemma_run_tail(inner, CharClass::Key);
            assert(name == run(inner, CharClass::Key));
            assert(strip(behind, ": "@, false) is Some);
            assert(forall|i: int| 0 <= i < 6 ==> inner[i] == name[i]);
            assert(inner[6] == behind[0] && inner[7] == behind[1]);
            reveal_strlit("'");
            if strip(s, "-H '"@, false) is Some {
                assert("-H '"@ =~= "-H "@ + "'"@);
                lemma_strip_in_two(s, "-H '"@, "-H "@, "'"@);
            } else {
                assert("--header '"@ =~= "--header "@ + "'"@);
                lemma_strip_in_two(s, "--header '"@, "--header "@, "'"@);
                assert(same_char(s[1], "--header '"@[1], false));
                if starts_with(s, "-H "@, false) {
                    assert(same_char(s[1], "-H "@[1], false));
                }
            }
            let a = strip_either(s, "-H "@, "--header "@)->0;
            assert(strip_either(s, "-H "@, "--header "@) == Some("'"@ + inner));
            assert(a.len() == inner.len() + 1);
            assert(a[0] == '\'');
            assert(forall|i: int| 0 <= i < inner.len() ==> a[i + 1] == inner[i]);
            let lit = "'cookie: "@;
            assert forall|k: int| 0 <= k < lit.len() implies same_char(
                a[k],
                #[trigger] lit[k],
                true,
            ) by {
                if k == 0 {
                    assert(a[0] == '\'');
                } else if k <= 6 {
                    assert(a[k] == name[k - 1]);
                    assert(lit[k] == "cookie"@[k - 1]);
                    assert(same_char(name[k - 1], "cookie"@[k - 1], true));
                } else if k == 7 {
                    assert(same_char(behind[0], ": "@[0], false));
                    assert(a[7] == inner[6]);
                } else {
                    assert(same_char(behind[1], ": "@[1], false));
                    assert(a[8] == inner[7]);
                }
            }
            assert(strip(a, lit, true) is Some);
            lemma_cookie_list_failure(strip(a, lit, true)->0, Pairs::empty());
        }
    }
}

} // verus!
