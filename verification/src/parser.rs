//! The recognizers: each reads the front of a string slice and hands back
//! what it read together with the slice behind it, as slices of its input.
use crate::error::{ErrorKind, ParseError};
use crate::grammar::{
    collect, done, lemma_any_option_tail, lemma_option_lead_tail, lemma_run_tail, lemma_strip_tail,
    skip_optional, spec_any_option, spec_command, spec_cookie_list, spec_cookie_pairs,
    spec_flag_name, spec_key, spec_option_lead, spec_option_list, spec_options_,
    spec_options_data_raw, spec_options_header_, spec_options_header_cookie, spec_quoted,
    spec_text_curl, strip_either, Outcome,
};
use crate::record::{Curl, CurlOption, CurlView, OptionView};
use crate::strmap::{Pairs, StrMap};
use crate::token::{split_first, split_while, strip_tag, CharClass};
use vstd::prelude::*;
use vstd::string::*;

verus! {

/// What a recognizer returned, as text.
pub open spec fn outcome_of<'a, T: View>(r: Result<(&'a str, T), ParseError<'a>>) -> Outcome<T::V> {
    match r {
        Ok((rest, value)) => Ok((rest@, value@)),
        Err(e) => Err(e@),
    }
}

/// What the flag recognizer returned, as text.
pub open spec fn flag_outcome_of<'a>(
    r: Result<(&'a str, (&'a str, Option<&'a str>)), ParseError<'a>>,
) -> Outcome<(Seq<char>, Option<Seq<char>>)> {
    match r {
        Ok((rest, (name, Some(argument)))) => Ok((rest@, (name@, Some(argument@)))),
        Ok((rest, (name, None))) => Ok((rest@, (name@, None))),
        Err(e) => Err(e@),
    }
}

/// What an optional pair of slices is, as text.
pub open spec fn pair_of<'a>(r: Option<(&'a str, &'a str)>) -> Option<(Seq<char>, Seq<char>)> {
    match r {
        Some((rest, value)) => Some((rest@, value@)),
        None => None,
    }
}

/// Recognizes a key: the longest leading run of letters, digits, `-` and
/// `_`. It never fails; the key may be empty.
pub fn key<'a>(input: &'a str) -> (r: Result<(&'a str, &'a str), ParseError<'a>>)
    ensures
        r is Ok,
        outcome_of(r) == spec_key(input@),
{
    let (name, rest) = split_while(input, CharClass::Key);
    Ok((rest, name))
}

/// Recognizes the body of a quoted text and the single quote that closes it.
/// Returns the slice behind the quote and the body, or `None` where no quote closes the text.
pub fn quoted<'a>(input: &'a str) -> (r: Option<(&'a str, &'a str)>)
    ensures
        pair_of(r) == spec_quoted(input@),
{
    let (body, behind) = split_while(input, CharClass::Unquoted);
    proof {
        reveal_strlit("'");
    }
    match strip_tag(behind, "'", false) {
        Some(rest) => Some((rest, body)),
        None => None,
    }
}

/// Removes the first of the literals `first` and `second` that stands at the front of `input`.
fn strip_one_of<'a>(input: &'a str, first: &str, second: &str) -> (r: Option<&'a str>)
    requires
        is_ascii(first),
        is_ascii(second),
    ensures
        match r {
            Some(rest) => strip_either(input@, first@, second@) == Some(rest@),
            None => strip_either(input@, first@, second@) is None,
        },
{
    match strip_tag(input, first, false) {
        Some(rest) => Some(rest),
        None => strip_tag(input, second, false),
    }
}

/// Removes the literal `literal` from the front of `input` where it stands there.
fn skip_tag<'a>(input: &'a str, literal: &str) -> (rest: &'a str)
    requires
        is_ascii(literal),
    ensures
        rest@ == skip_optional(input@, literal@),
{
    match strip_tag(input, literal, false) {
        Some(rest) => rest,
        None => input,
    }
}

/// Recognizes the pairs of a cookie header's value and collects them into a
/// map, in which a later pair replaces an earlier one of the same name. Fails
/// on the first pair that lacks its name or its `=`.
pub fn cookie_pairs<'a>(input: &'a str) -> (r: Result<(&'a str, StrMap<'a>), ParseError<'a>>)
    ensures
        outcome_of(r) == spec_cookie_pairs(input@),
{
    let mut cookies = StrMap::new();
    let mut cur = input;
    let ghost mut seen = Pairs::empty();
    proof {
        reveal_strlit("=");
        reveal_strlit(";");
    }
    loop
        invariant
            is_ascii("="),
            is_ascii(";"),
            spec_cookie_list(cur@, seen) == spec_cookie_list(input@, Pairs::empty()),
            cookies@ == collect(seen),
        decreases cur@.len(),
    {
        let (_, s1) = split_while(cur, CharClass::Space);
        let (name, s2) = split_while(s1, CharClass::Key);
        proof {
            lemma_run_tail(cur@, CharClass::Space);
            lemma_run_tail(s1@, CharClass::Key);
        }
        if name.is_empty() {
            return Err(ParseError { input: s1, kind: ErrorKind::CookiePair });
        }
        match strip_tag(s2, "=", false) {
            None => {
                return Err(ParseError { input: s2, kind: ErrorKind::CookiePair });
            },
            Some(s3) => {
                let (value, s4) = split_while(s3, CharClass::CookieValue);
                cookies.insert(name, value);
                proof {
                    lemma_strip_tail(s2@, "="@, false);
                    lemma_run_tail(s3@, CharClass::CookieValue);
                    lemma_strip_tail(s4@, ";"@, false);
                    assert(seen.push((name@, value@)).drop_last() =~= seen);
                    seen = seen.push((name@, value@));
                }
                match strip_tag(s4, ";", false) {
                    Some(s5) => {
                        cur = s5;
                    },
                    None => {
                        return Ok((s4, cookies));
                    },
                }
            },
        }
    }
}

/// Recognizes the cookie header option. Fails with kind `Prefix` where the
/// input does not begin as a cookie header does, and with another kind where
/// the header is malformed behind its `Cookie: `.
pub fn options_header_cookie<'a>(input: &'a str) -> (r: Result<
    (&'a str, StrMap<'a>),
    ParseError<'a>,
>)
    ensures
        outcome_of(r) == spec_options_header_cookie(input@),
{
    proof {
        reveal_strlit("-H ");
        reveal_strlit("--header ");
        reveal_strlit("'cookie: ");
        reveal_strlit("'");
    }
    let a = match strip_one_of(input, "-H ", "--header ") {
        Some(a) => a,
        None => {
            return Err(ParseError { input, kind: ErrorKind::Prefix });
        },
    };
    let b = match strip_tag(a, "'cookie: ", true) {
        Some(b) => b,
        None => {
            return Err(ParseError { input: a, kind: ErrorKind::Prefix });
        },
    };
    let (c, cookies) = match cookie_pairs(b) {
        Ok(found) => found,
        Err(e) => {
            return Err(e);
        },
    };
    match strip_tag(c, "'", false) {
        Some(d) => Ok((d, cookies)),
        None => Err(ParseError { input: c, kind: ErrorKind::CloseQuote }),
    }
}

/// Recognizes the header option and returns the header's name and value.
pub fn options_header_<'a>(input: &'a str) -> (r: Result<
    (&'a str, (&'a str, &'a str)),
    ParseError<'a>,
>)
    ensures
        outcome_of(r) == spec_options_header_(input@),
{
    proof {
        reveal_strlit("-H '");
        reveal_strlit("--header '");
        reveal_strlit(": ");
    }
    let a = match strip_one_of(input, "-H '", "--header '") {
        Some(a) => a,
        None => {
            return Err(ParseError { input, kind: ErrorKind::Prefix });
        },
    };
    let (name, a1) = split_while(a, CharClass::Key);
    let b = match strip_tag(a1, ": ", false) {
        Some(b) => b,
        None => {
            return Err(ParseError { input: a1, kind: ErrorKind::Separator });
        },
    };
    match quoted(b) {
        Some((c, value)) => Ok((c, (name, value))),
        None => Err(ParseError { input: b, kind: ErrorKind::CloseQuote }),
    }
}

/// Recognizes the raw body option and returns the body.
pub fn options_data_raw<'a>(input: &'a str) -> (r: Result<(&'a str, &'a str), ParseError<'a>>)
    ensures
        outcome_of(r) == spec_options_data_raw(input@),
{
    proof {
        reveal_strlit("--data-raw '");
    }
    let a = match strip_tag(input, "--data-raw '", false) {
        Some(a) => a,
        None => {
            return Err(ParseError { input, kind: ErrorKind::Prefix });
        },
    };
    match quoted(a) {
        Some((b, body)) => Ok((b, body)),
        None => Err(ParseError { input: a, kind: ErrorKind::CloseQuote }),
    }
}

/// Recognizes the name of a flag: a key behind `--`, or else one character behind `-`.
pub fn flag_name<'a>(input: &'a str) -> (r: Result<(&'a str, &'a str), ParseError<'a>>)
    ensures
        outcome_of(r) == spec_flag_name(input@),
{
    proof {
        reveal_strlit("--");
        reveal_strlit("-");
    }
    match strip_tag(input, "--", false) {
        Some(a) => key(a),
        None => match strip_tag(input, "-", false) {
            None => Err(ParseError { input, kind: ErrorKind::Prefix }),
            Some(a) => match split_first(a) {
                Some((name, rest)) => Ok((rest, name)),
                None => Err(ParseError { input: a, kind: ErrorKind::FlagName }),
            },
        },
    }
}

/// Recognizes the flag option and returns the flag's name and, where a
/// quoted argument follows it, that argument.
pub fn options_<'a>(input: &'a str) -> (r: Result<
    (&'a str, (&'a str, Option<&'a str>)),
    ParseError<'a>,
>)
    ensures
        flag_outcome_of(r) == spec_options_(input@),
{
    let (a, name) = match flag_name(input) {
        Ok(found) => found,
        Err(e) => {
            return Err(e);
        },
    };
    proof {
        reveal_strlit(" '");
    }
    let argument = match strip_tag(a, " '", false) {
        Some(b) => quoted(b),
        None => None,
    };
    match argument {
        Some((c, value)) => Ok((c, (name, Some(value)))),
        None => Ok((a, (name, None))),
    }
}

/// Recognizes one option: the first of the four shapes that matches, tried
/// in the order cookie header, header, raw body, flag. A cookie header that
/// is malformed behind its `Cookie: ` fails the option, and no other shape is tried.
pub fn any_option<'a>(input: &'a str) -> (r: Result<(&'a str, CurlOption<'a>), ParseError<'a>>)
    ensures
        outcome_of(r) == spec_any_option(input@),
{
    match options_header_cookie(input) {
        Ok((rest, cookies)) => {
            return Ok((rest, CurlOption::Cookies(cookies)));
        },
        Err(e) => match e.kind {
            ErrorKind::Prefix => {},
            _ => {
                return Err(e);
            },
        },
    }
    if let Ok((rest, (name, value))) = options_header_(input) {
        return Ok((rest, CurlOption::Header(name, value)));
    }
    if let Ok((rest, body)) = options_data_raw(input) {
        return Ok((rest, CurlOption::DataRaw(body)));
    }
    if let Ok((rest, (name, argument))) = options_(input) {
        return Ok((rest, CurlOption::Flag(name, argument)));
    }
    Err(ParseError { input, kind: ErrorKind::Option })
}

/// Skips what may stand in front of an option: a backslash with a line feed, then whitespace.
pub fn option_lead<'a>(input: &'a str) -> (rest: &'a str)
    ensures
        rest@ == spec_option_lead(input@),
{
    proof {
        reveal_strlit("\\\n");
    }
    let a = skip_tag(input, "\\\n");
    let (_, rest) = split_while(a, CharClass::Space);
    rest
}

/// Recognizes the command: the name `curl`, the url in single quotes, and
/// the line continuation that may follow it. Returns the url.
pub fn command<'a>(input: &'a str) -> (r: Result<(&'a str, &'a str), ParseError<'a>>)
    ensures
        outcome_of(r) == spec_command(input@),
{
    proof {
        reveal_strlit("curl");
        reveal_strlit("'");
        reveal_strlit(" \\\n");
    }
    let (_, s1) = split_while(input, CharClass::Space);
    let s2 = match strip_tag(s1, "curl", false) {
        Some(s2) => s2,
        None => {
            return Err(ParseError { input: s1, kind: ErrorKind::Command });
        },
    };
    let (gap, s2b) = split_while(s2, CharClass::Space);
    if gap.is_empty() {
        return Err(ParseError { input: s2, kind: ErrorKind::Whitespace });
    }
    let s3 = match strip_tag(s2b, "'", false) {
        Some(s3) => s3,
        None => {
            return Err(ParseError { input: s2b, kind: ErrorKind::OpenQuote });
        },
    };
    match quoted(s3) {
        Some((s4, url)) => Ok((skip_tag(s4, " \\\n"), url)),
        None => Err(ParseError { input: s3, kind: ErrorKind::CloseQuote }),
    }
}

/// Parses an invocation into its record. Returns the record together with
/// the input that the option list did not read, or the place at which the
/// parse stopped and what was expected there. No record comes out of a
/// failed parse.
pub fn text_curl<'a>(input: &'a str) -> (r: Result<(&'a str, Curl<'a>), ParseError<'a>>)
    ensures
        outcome_of(r) == spec_text_curl(input@),
{
    let (start, url) = match command(input) {
        Ok(found) => found,
        Err(e) => {
            return Err(e);
        },
    };
    let mut curl = Curl::new(url);
    let mut cur = start;
    let ghost mut seen: Seq<OptionView> = Seq::empty();
    proof {
        reveal_strlit(" ");
    }
    loop
        invariant
            is_ascii(" "),
            spec_command(input@) == done(start@, url@),
            spec_option_list(cur@, seen) == spec_option_list(start@, Seq::empty()),
            curl@ == CurlView::build(url@, seen),
        decreases cur@.len(),
    {
        let t = option_lead(cur);
        if t.is_empty() {
            return Ok((t, curl));
        }
        match any_option(t) {
            Err(e) => {
                return Err(e);
            },
            Ok((u, option)) => {
                proof {
                    lemma_option_lead_tail(cur@);
                    lemma_any_option_tail(t@);
                    lemma_strip_tail(u@, " "@, false);
                    assert(seen.push(option@).drop_last() =~= seen);
                    seen = seen.push(option@);
                }
                curl.apply(option);
                match strip_tag(u, " ", false) {
                    Some(v) => {
                        cur = v;
                    },
                    None => {
                        return Ok((u, curl));
                    },
                }
            },
        }
    }
}

} // verus!
