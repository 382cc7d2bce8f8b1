//! Writing an invocation and reading it back.
//!
//! The functions here write the text of an option, of a cookie list and of a
//! command, each in front of the text that is to follow it. The lemmas say
//! that the recognizers read such a text back to the very parts from which it
//! was written: nothing is trimmed and nothing is decoded.
use crate::error::ErrorKind;
use crate::grammar::{
    after_run, collect, done, is_cookie_name, run, skip_optional, spec_any_option,
    spec_command, spec_cookie_list,
    spec_flag_argument, spec_option_lead, spec_option_list, spec_options_,
    spec_options_data_raw, spec_options_header_, spec_options_header_cookie, spec_quoted,
    spec_text_curl, strip_either,
};
use crate::record::{CurlView, OptionView};
use crate::strmap::Pairs;
use crate::token::{
    is_key_char, is_space_char, lemma_run_len_is, run_len, same_char, starts_with, strip,
    CharClass,
};
use vstd::prelude::*;

verus! {

/// Whether every character of `s` may occur in a key.
pub open spec fn is_key_text(s: Seq<char>) -> bool {
    forall|i: int| 0 <= i < s.len() ==> is_key_char(#[trigger] s[i])
}

/// Whether every character of `s` is whitespace.
pub open spec fn is_space_text(s: Seq<char>) -> bool {
    forall|i: int| 0 <= i < s.len() ==> is_space_char(#[trigger] s[i])
}

/// Whether the character `c` does not occur in `s`.
pub open spec fn is_free_of(s: Seq<char>, c: char) -> bool {
    forall|i: int| 0 <= i < s.len() ==> #[trigger] s[i] != c
}

/// A run that is written in front of a text which does not go on with it is read back as it is.
pub proof fn lemma_run_round_trip(r: Seq<char>, rest: Seq<char>, class: CharClass)
    requires
        forall|i: int| 0 <= i < r.len() ==> class.holds(#[trigger] r[i]),
        rest.len() > 0 ==> !class.holds(rest[0]),
    ensures
        run_len(r + rest, class) == r.len(),
        run(r + rest, class) == r,
        after_run(r + rest, class) == rest,
{
    let s = r + rest;
    assert forall|j: int| 0 <= j < r.len() implies class.holds(#[trigger] s[j]) by {
        assert(s[j] == r[j]);
    }
    if r.len() < s.len() {
        assert(s[r.len() as int] == rest[0]);
    }
    lemma_run_len_is(s, class, r.len() as int);
    assert(s.take(r.len() as int) =~= r);
    assert(s.skip(r.len() as int) =~= rest);
}

/// A literal that is written in front of a text is read back, and the text is left.
pub proof fn lemma_literal_round_trip(t: Seq<char>, rest: Seq<char>)
    ensures
        strip(t + rest, t, false) == Some(rest),
{
    let s = t + rest;
    assert forall|k: int| 0 <= k < t.len() implies same_char(s[k], #[trigger] t[k], false) by {
        assert(s[k] == t[k]);
    }
    assert(s.skip(t.len() as int) =~= rest);
}

/// A text that differs from a literal at one place, or ends before it, does not begin with it.
pub proof fn lemma_literal_mismatch(s: Seq<char>, t: Seq<char>, k: int, ignore_case: bool)
    requires
        0 <= k < t.len(),
        k < s.len() ==> !same_char(s[k], t[k], ignore_case),
    ensures
        strip(s, t, ignore_case) is None,
{
    if starts_with(s, t, ignore_case) {
        assert(same_char(s[k], t[k], ignore_case));
    }
}

/// The text of a quoted body with its closing quote, in front of `tail`.
pub open spec fn quoted_text(body: Seq<char>, tail: Seq<char>) -> Seq<char> {
    body + ("'"@ + tail)
}

/// A quoted body without a single quote in it is read back as it was written.
pub proof fn lemma_quoted_round_trip(body: Seq<char>, tail: Seq<char>)
    requires
        is_free_of(body, '\''),
    ensures
        spec_quoted(quoted_text(body, tail)) == Some((tail, body)),
{
    reveal_strlit("'");
    lemma_run_round_trip(body, "'"@ + tail, CharClass::Unquoted);
    lemma_literal_round_trip("'"@, tail);
}

/// The text of a header option, in its short or its long form, in front of `tail`.
pub open spec fn header_text(
    long: bool,
    name: Seq<char>,
    value: Seq<char>,
    tail: Seq<char>,
) -> Seq<char> {
    (if long {
        "--header '"@
    } else {
        "-H '"@
    }) + (name + (": "@ + quoted_text(value, tail)))
}

/// A header whose name is a key and whose value holds no single quote is
/// read back with exactly that name and that value.
pub proof fn lemma_header_round_trip(
    long: bool,
    name: Seq<char>,
    value: Seq<char>,
    tail: Seq<char>,
)
    requires
        is_key_text(name),
        is_free_of(value, '\''),
    ensures
        spec_options_header_(header_text(long, name, value, tail)) == done(tail, (name, value)),
{
    reveal_strlit("-H '");
    reveal_strlit("--header '");
    reveal_strlit(": ");
    let s = header_text(long, name, value, tail);
    let a = name + (": "@ + quoted_text(value, tail));
    if long {
        lemma_literal_mismatch(s, "-H '"@, 1, false);
        lemma_literal_round_trip("--header '"@, a);
    } else {
        lemma_literal_round_trip("-H '"@, a);
    }
    assert(strip_either(s, "-H '"@, "--header '"@) == Some(a));
    lemma_run_round_trip(name, ": "@ + quoted_text(value, tail), CharClass::Key);
    lemma_literal_round_trip(": "@, quoted_text(value, tail));
    lemma_quoted_round_trip(value, tail);
}

/// The text of a raw body option, in front of `tail`.
pub open spec fn data_raw_text(body: Seq<char>, tail: Seq<char>) -> Seq<char> {
    "--data-raw '"@ + quoted_text(body, tail)
}

/// A body that holds no single quote is read back as it was written.
pub proof fn lemma_data_raw_round_trip(body: Seq<char>, tail: Seq<char>)
    requires
        is_free_of(body, '\''),
    ensures
        spec_options_data_raw(data_raw_text(body, tail)) == done(tail, body),
{
    lemma_literal_round_trip("--data-raw '"@, quoted_text(body, tail));
    lemma_quoted_round_trip(body, tail);
}

/// A literal that is written in another case in front of a text is read
/// back where case is ignored, and the text is left.
pub proof fn lemma_literal_round_trip_in_any_case(t: Seq<char>, written: Seq<char>, rest: Seq<char>)
    requires
        written.len() == t.len(),
        forall|k: int| 0 <= k < t.len() ==> same_char(written[k], #[trigger] t[k], true),
    ensures
        strip(written + rest, t, true) == Some(rest),
{
    let s = written + rest;
    assert forall|k: int| 0 <= k < t.len() implies same_char(s[k], #[trigger] t[k], true) by {
        assert(s[k] == written[k]);
    }
    assert(s.skip(t.len() as int) =~= rest);
}

/// Whether a pair can be written as a cookie: its name is a key and not
/// empty, and its value holds neither a single quote nor a semicolon.
pub open spec fn is_cookie(pair: (Seq<char>, Seq<char>)) -> bool {
    &&& pair.0.len() > 0
    &&& is_key_text(pair.0)
    &&& is_free_of(pair.1, '\'')
    &&& is_free_of(pair.1, ';')
}

/// The text of one cookie pair, in front of `tail`.
pub open spec fn cookie_text(pair: (Seq<char>, Seq<char>), tail: Seq<char>) -> Seq<char> {
    pair.0 + ("="@ + (pair.1 + tail))
}

/// The text of a list of cookie pairs, with `; ` between two pairs, in front of `tail`.
pub open spec fn cookie_list_text(pairs: Pairs, tail: Seq<char>) -> Seq<char>
    decreases pairs.len(),
{
    if pairs.len() == 0 {
        tail
    } else if pairs.len() == 1 {
        cookie_text(pairs[0], tail)
    } else {
        cookie_text(pairs[0], "; "@ + cookie_list_text(pairs.drop_first(), tail))
    }
}

/// One cookie pair is read back as it was written, whatever whitespace stands in front of it.
pub proof fn lemma_cookie_round_trip(
    lead: Seq<char>,
    pair: (Seq<char>, Seq<char>),
    tail: Seq<char>,
    seen: Pairs,
)
    requires
        is_space_text(lead),
        is_cookie(pair),
        tail.len() == 0 || tail[0] == '\'' || tail[0] == ';',
    ensures
        spec_cookie_list(lead + cookie_text(pair, tail), seen) == match strip(
            tail,
            ";"@,
            false,
        ) {
            Some(next) => spec_cookie_list(next, seen.push(pair)),
            None => Ok((tail, seen.push(pair))),
        },
{
    reveal_strlit("=");
    let (name, value) = pair;
    assert(is_key_char(name[0]));
    lemma_run_round_trip(lead, cookie_text(pair, tail), CharClass::Space);
    lemma_run_round_trip(name, "="@ + (value + tail), CharClass::Key);
    lemma_literal_round_trip("="@, value + tail);
    lemma_run_round_trip(value, tail, CharClass::CookieValue);
}

/// A list of cookie pairs is read back pair by pair, in the order in which it was written.
pub proof fn lemma_cookie_list_round_trip(
    lead: Seq<char>,
    pairs: Pairs,
    tail: Seq<char>,
    seen: Pairs,
)
    requires
        is_space_text(lead),
        pairs.len() > 0,
        forall|i: int| 0 <= i < pairs.len() ==> is_cookie(#[trigger] pairs[i]),
        tail.len() == 0 || tail[0] == '\'',
    ensures
        spec_cookie_list(lead + cookie_list_text(pairs, tail), seen) == done(tail, seen + pairs),
    decreases pairs.len(),
{
    reveal_strlit(";");
    reveal_strlit("; ");
    if pairs.len() == 1 {
        lemma_cookie_round_trip(lead, pairs[0], tail, seen);
        lemma_literal_mismatch(tail, ";"@, 0, false);
        assert(seen + pairs =~= seen.push(pairs[0]));
    } else {
        let rest = pairs.drop_first();
        let more = cookie_list_text(rest, tail);
        let x = "; "@ + more;
        lemma_cookie_round_trip(lead, pairs[0], x, seen);
        let gap = seq![' '];
        assert(starts_with(x, ";"@, false));
        assert(x.skip(1) =~= gap + more);
        assert forall|i: int| 0 <= i < rest.len() implies is_cookie(#[trigger] rest[i]) by {
            assert(rest[i] == pairs[i + 1]);
        }
        lemma_cookie_list_round_trip(gap, rest, tail, seen.push(pairs[0]));
        assert(seen + pairs =~= seen.push(pairs[0]) + rest);
    }
}

/// The text of a cookie header option, in its short or its long form, in front of `tail`.
pub open spec fn cookie_header_text(long: bool, pairs: Pairs, tail: Seq<char>) -> Seq<char> {
    (if long {
        "--header "@
    } else {
        "-H "@
    }) + ("'Cookie: "@ + cookie_list_text(pairs, "'"@ + tail))
}

/// A cookie header is read back to the map of the pairs that were written:
/// each value is the very text that was written for it.
pub proof fn lemma_cookie_header_round_trip(long: bool, pairs: Pairs, tail: Seq<char>)
    requires
        pairs.len() > 0,
        forall|i: int| 0 <= i < pairs.len() ==> is_cookie(#[trigger] pairs[i]),
    ensures
        spec_options_header_cookie(cookie_header_text(long, pairs, tail)) == done(
            tail,
            collect(pairs),
        ),
{
    reveal_strlit("-H ");
    reveal_strlit("--header ");
    reveal_strlit("'Cookie: ");
    reveal_strlit("'cookie: ");
    reveal_strlit("'");
    let s = cookie_header_text(long, pairs, tail);
    let list = cookie_list_text(pairs, "'"@ + tail);
    let a = "'Cookie: "@ + list;
    if long {
        lemma_literal_mismatch(s, "-H "@, 1, false);
        lemma_literal_round_trip("--header "@, a);
    } else {
        lemma_literal_round_trip("-H "@, a);
    }
    assert(strip_either(s, "-H "@, "--header "@) == Some(a));
    lemma_literal_round_trip_in_any_case("'cookie: "@, "'Cookie: "@, list);
    lemma_cookie_list_round_trip(Seq::empty(), pairs, "'"@ + tail, Pairs::empty());
    assert(Seq::<char>::empty() + list =~= list);
    assert(Pairs::empty() + pairs =~= pairs);
    lemma_literal_round_trip("'"@, tail);
}

/// The text of a command: whitespace, `curl`, whitespace, and the url in
/// single quotes, in front of `tail`.
pub open spec fn command_text(
    lead: Seq<char>,
    gap: Seq<char>,
    url: Seq<char>,
    tail: Seq<char>,
) -> Seq<char> {
    lead + ("curl"@ + (gap + ("'"@ + quoted_text(url, tail))))
}

/// A url that holds no single quote is read back as it was written.
pub proof fn lemma_command_round_trip(
    lead: Seq<char>,
    gap: Seq<char>,
    url: Seq<char>,
    tail: Seq<char>,
)
    requires
        is_space_text(lead),
        is_space_text(gap),
        gap.len() > 0,
        is_free_of(url, '\''),
    ensures
        spec_command(command_text(lead, gap, url, tail)) == done(
            skip_optional(tail, " \\\n"@),
            url,
        ),
{
    reveal_strlit("curl");
    reveal_strlit("'");
    let after_name = gap + ("'"@ + quoted_text(url, tail));
    lemma_run_round_trip(lead, "curl"@ + after_name, CharClass::Space);
    lemma_literal_round_trip("curl"@, after_name);
    lemma_run_round_trip(gap, "'"@ + quoted_text(url, tail), CharClass::Space);
    lemma_literal_round_trip("'"@, quoted_text(url, tail));
    lemma_quoted_round_trip(url, tail);
}

/// Whether `tail` can stand behind an option: it is empty, or it goes on
/// with a space that no single quote follows.
pub open spec fn is_option_tail(tail: Seq<char>) -> bool {
    tail.len() == 0 || (tail.len() >= 2 && tail[0] == ' ' && tail[1] != '\'')
}

/// The text of the argument of a flag, if it has one, in front of `tail`.
pub open spec fn argument_text(argument: Option<Seq<char>>, tail: Seq<char>) -> Seq<char> {
    match argument {
        Some(value) => " '"@ + quoted_text(value, tail),
        None => tail,
    }
}

/// Whether the argument of a flag, if it has one, holds no single quote.
pub open spec fn is_argument(argument: Option<Seq<char>>) -> bool {
    match argument {
        Some(value) => is_free_of(value, '\''),
        None => true,
    }
}

/// The argument of a flag is read back as it was written, and a flag without
/// an argument is read back without one.
pub proof fn lemma_argument_round_trip(argument: Option<Seq<char>>, tail: Seq<char>)
    requires
        is_argument(argument),
        is_option_tail(tail),
    ensures
        spec_flag_argument(argument_text(argument, tail)) == match argument {
            Some(value) => Some((tail, value)),
            None => None,
        },
        argument_text(argument, tail).len() > 0 ==> argument_text(argument, tail)[0] == ' ',
{
    reveal_strlit(" '");
    match argument {
        Some(value) => {
            lemma_literal_round_trip(" '"@, quoted_text(value, tail));
            lemma_quoted_round_trip(value, tail);
        },
        None => {
            lemma_literal_mismatch(tail, " '"@, if tail.len() == 0 {
                0
            } else {
                1
            }, false);
        },
    }
}

/// The text of a flag with a name behind `--`, in front of `tail`.
pub open spec fn long_flag_text(
    name: Seq<char>,
    argument: Option<Seq<char>>,
    tail: Seq<char>,
) -> Seq<char> {
    "--"@ + (name + argument_text(argument, tail))
}

/// The text of a flag with one character behind `-`, in front of `tail`.
pub open spec fn short_flag_text(
    name: char,
    argument: Option<Seq<char>>,
    tail: Seq<char>,
) -> Seq<char> {
    "-"@ + (seq![name] + argument_text(argument, tail))
}

/// A flag with a key as name is read back with that name and its argument.
pub proof fn lemma_long_flag_round_trip(
    name: Seq<char>,
    argument: Option<Seq<char>>,
    tail: Seq<char>,
)
    requires
        is_key_text(name),
        is_argument(argument),
        is_option_tail(tail),
    ensures
        spec_options_(long_flag_text(name, argument, tail)) == done(tail, (name, argument)),
{
    reveal_strlit("--");
    let x = argument_text(argument, tail);
    lemma_argument_round_trip(argument, tail);
    lemma_literal_round_trip("--"@, name + x);
    lemma_run_round_trip(name, x, CharClass::Key);
}

/// A flag with one character as name is read back with that name and its argument.
pub proof fn lemma_short_flag_round_trip(name: char, argument: Option<Seq<char>>, tail: Seq<char>)
    requires
        name != '-',
        is_argument(argument),
        is_option_tail(tail),
    ensures
        spec_options_(short_flag_text(name, argument, tail)) == done(tail, (seq![name], argument)),
{
    reveal_strlit("--");
    reveal_strlit("-");
    let x = argument_text(argument, tail);
    let s = short_flag_text(name, argument, tail);
    let a = seq![name] + x;
    lemma_argument_round_trip(argument, tail);
    lemma_literal_mismatch(s, "--"@, 1, false);
    lemma_literal_round_trip("-"@, a);
    assert(a.take(1) =~= seq![name]);
    assert(a.skip(1) =~= x);
}

/// An option as it is written into an invocation.
pub enum Written {
    /// A cookie header, short (`-H`) or long (`--header`), with its pairs.
    Cookies { long: bool, pairs: Pairs },
    /// A header, short or long.
    Header { long: bool, name: Seq<char>, value: Seq<char> },
    /// The raw body.
    DataRaw { body: Seq<char> },
    /// A flag with a name behind `--`.
    LongFlag { name: Seq<char>, argument: Option<Seq<char>> },
    /// A flag with one character behind `-`.
    ShortFlag { letter: char, argument: Option<Seq<char>> },
}

impl Written {
    /// The text of the option, in front of `tail`.
    pub open spec fn text(self, tail: Seq<char>) -> Seq<char> {
        match self {
            Written::Cookies { long, pairs } => cookie_header_text(long, pairs, tail),
            Written::Header { long, name, value } => header_text(long, name, value, tail),
            Written::DataRaw { body } => data_raw_text(body, tail),
            Written::LongFlag { name, argument } => long_flag_text(name, argument, tail),
            Written::ShortFlag { letter, argument } => short_flag_text(letter, argument, tail),
        }
    }

    /// The option that the text stands for.
    pub open spec fn meaning(self) -> OptionView {
        match self {
            Written::Cookies { long, pairs } => OptionView::Cookies(collect(pairs)),
            Written::Header { long, name, value } => OptionView::Header(name, value),
            Written::DataRaw { body } => OptionView::DataRaw(body),
            Written::LongFlag { name, argument } => OptionView::Flag(name, argument),
            Written::ShortFlag { letter, argument } => OptionView::Flag(seq![letter], argument),
        }
    }

    /// Whether the option can be written so that it is read back as itself:
    /// its names are keys, its quoted texts hold no single quote, and its
    /// text is not that of an option of a shape that is tried earlier.
    pub open spec fn is_writable(self) -> bool {
        match self {
            Written::Cookies { long, pairs } => pairs.len() > 0 && forall|i: int|
                0 <= i < pairs.len() ==> is_cookie(#[trigger] pairs[i]),
            Written::Header { long, name, value } => is_key_text(name) && !is_cookie_name(name)
                && is_free_of(value, '\''),
            Written::DataRaw { body } => is_free_of(body, '\''),
            Written::LongFlag { name, argument } => is_key_text(name) && name != "header"@ && name
                != "data-raw"@ && is_argument(argument),
            Written::ShortFlag { letter, argument } => letter != '-' && letter != 'H'
                && is_argument(argument),
        }
    }
}

/// A header whose name is not that of the cookie header is no cookie header.
proof fn lemma_header_is_no_cookie_header(
    long: bool,
    name: Seq<char>,
    value: Seq<char>,
    tail: Seq<char>,
)
    requires
        is_key_text(name),
        !is_cookie_name(name),
    ensures
        spec_options_header_cookie(header_text(long, name, value, tail)) is Err,
        spec_options_header_cookie(header_text(long, name, value, tail))->Err_0.kind
            == ErrorKind::Prefix,
{
    reveal_strlit("-H ");
    reveal_strlit("--header ");
    reveal_strlit("-H '");
    reveal_strlit("--header '");
    reveal_strlit("'");
    reveal_strlit(": ");
    reveal_strlit("cookie");
    reveal_strlit("'cookie: ");
    let s = header_text(long, name, value, tail);
    let body = name + (": "@ + quoted_text(value, tail));
    let a = "'"@ + body;
    if long {
        lemma_literal_mismatch(s, "-H "@, 1, false);
        assert(s =~= "--header "@ + a);
        lemma_literal_round_trip("--header "@, a);
    } else {
        assert(s =~= "-H "@ + a);
        lemma_literal_round_trip("-H "@, a);
    }
    assert(strip_either(s, "-H "@, "--header "@) == Some(a));
    let lit = "'cookie: "@;
    assert(forall|i: int| 0 <= i < name.len() ==> a[1 + i] == name[i]);
    assert(a[(1 + name.len()) as int] == ':');
    if name.len() < 6 {
        lemma_literal_mismatch(a, lit, (1 + name.len()) as int, true);
    } else if name.len() > 6 {
        assert(is_key_char(name[6]));
        lemma_literal_mismatch(a, lit, 7, true);
    } else {
        let k = choose|k: int|
            !(0 <= k < "cookie"@.len() ==> same_char(name[k], #[trigger] "cookie"@[k], true));
        assert(lit[k + 1] == "cookie"@[k]);
        lemma_literal_mismatch(a, lit, k + 1, true);
    }
}

/// A flag whose name is not `word` does not begin with `--`, `word` and a space.
proof fn lemma_flag_is_no_other_option(
    name: Seq<char>,
    x: Seq<char>,
    word: Seq<char>,
    after: Seq<char>,
)
    requires
        is_key_text(name),
        x.len() > 0 ==> x[0] == ' ',
        is_key_text(word),
        after.len() > 0,
        after[0] == ' ',
        name != word,
    ensures
        strip("--"@ + (name + x), "--"@ + (word + after), false) is None,
{
    reveal_strlit("--");
    let s = "--"@ + (name + x);
    let t = "--"@ + (word + after);
    if name.len() < word.len() {
        let k: int = 2 + name.len() as int;
        assert(t[k] == word[name.len() as int]);
        assert(is_key_char(word[name.len() as int]));
        if k < s.len() {
            assert(s[k] == x[0]);
        }
        lemma_literal_mismatch(s, t, k, false);
    } else if name.len() > word.len() {
        let k: int = 2 + word.len() as int;
        assert(t[k] == after[0]);
        assert(s[k] == name[word.len() as int]);
        assert(is_key_char(name[word.len() as int]));
        lemma_literal_mismatch(s, t, k, false);
    } else {
        assert(!(name =~= word));
        let i = choose|i: int| 0 <= i < name.len() && name[i] != word[i];
        assert(s[2 + i] == name[i]);
        assert(t[2 + i] == word[i]);
        lemma_literal_mismatch(s, t, 2 + i, false);
    }
}

/// An option that can be written is read back as itself: the dispatcher
/// gives the option that the text stands for and leaves what was written behind it.
pub proof fn lemma_option_round_trip(option: Written, tail: Seq<char>)
    requires
        option.is_writable(),
        is_option_tail(tail),
    ensures
        spec_any_option(option.text(tail)) == done(tail, option.meaning()),
        option.text(tail).len() > 0,
        option.text(tail)[0] == '-',
{
    reveal_strlit("-H ");
    reveal_strlit("--header ");
    reveal_strlit("-H '");
    reveal_strlit("--header '");
    reveal_strlit("--data-raw '");
    reveal_strlit("--");
    reveal_strlit("-");
    let s = option.text(tail);
    match option {
        Written::Cookies { long, pairs } => {
            lemma_cookie_header_round_trip(long, pairs, tail);
        },
        Written::Header { long, name, value } => {
            lemma_header_is_no_cookie_header(long, name, value, tail);
            lemma_header_round_trip(long, name, value, tail);
        },
        Written::DataRaw { body } => {
            lemma_literal_mismatch(s, "-H "@, 1, false);
            lemma_literal_mismatch(s, "--header "@, 2, false);
            lemma_literal_mismatch(s, "-H '"@, 1, false);
            lemma_literal_mismatch(s, "--header '"@, 2, false);
            lemma_data_raw_round_trip(body, tail);
        },
        Written::LongFlag { name, argument } => {
            reveal_strlit("header");
            reveal_strlit("data-raw");
            reveal_strlit(" ");
            reveal_strlit(" '");
            let x = argument_text(argument, tail);
            lemma_argument_round_trip(argument, tail);
            lemma_literal_mismatch(s, "-H "@, 1, false);
            lemma_literal_mismatch(s, "-H '"@, 1, false);
            lemma_flag_is_no_other_option(name, x, "header"@, " "@);
            assert("--header "@ =~= "--"@ + ("header"@ + " "@));
            lemma_flag_is_no_other_option(name, x, "header"@, " '"@);
            assert("--header '"@ =~= "--"@ + ("header"@ + " '"@));
            lemma_flag_is_no_other_option(name, x, "data-raw"@, " '"@);
            assert("--data-raw '"@ =~= "--"@ + ("data-raw"@ + " '"@));
            lemma_long_flag_round_trip(name, argument, tail);
        },
        Written::ShortFlag { letter, argument } => {
            lemma_literal_mismatch(s, "-H "@, 1, false);
            lemma_literal_mismatch(s, "--header "@, 1, false);
            lemma_literal_mismatch(s, "-H '"@, 1, false);
            lemma_literal_mismatch(s, "--header '"@, 1, false);
            lemma_literal_mismatch(s, "--data-raw '"@, 1, false);
            lemma_short_flag_round_trip(letter, argument, tail);
        },
    }
}

/// An option with what stands between it and what comes before it in an
/// invocation: one space, then a backslash with a line feed if the line is
/// continued, then whitespace.
pub struct Placed {
    pub continued: bool,
    pub gap: Seq<char>,
    pub option: Written,
}

/// The text that leads to an option, without the space in front of it, and
/// then `tail`.
pub open spec fn lead_text(continued: bool, gap: Seq<char>, tail: Seq<char>) -> Seq<char> {
    (if continued {
        "\\\n"@
    } else {
        Seq::empty()
    }) + (gap + tail)
}

/// The text of the options of an invocation, each behind a space and its lead.
pub open spec fn options_text(options: Seq<Placed>) -> Seq<char>
    decreases options.len(),
{
    if options.len() == 0 {
        Seq::empty()
    } else {
        " "@ + lead_text(
            options[0].continued,
            options[0].gap,
            options[0].option.text(options_text(options.drop_first())),
        )
    }
}

/// The options that the written options stand for.
pub open spec fn meanings(options: Seq<Placed>) -> Seq<OptionView> {
    options.map_values(|placed: Placed| placed.option.meaning())
}

/// Whether each of the options can be written, and each gap is whitespace.
pub open spec fn are_writable(options: Seq<Placed>) -> bool {
    forall|i: int|
        0 <= i < options.len() ==> is_space_text((#[trigger] options[i]).gap)
            && options[i].option.is_writable()
}

/// The text of an invocation: the command with its url, then the options.
pub open spec fn invocation_text(
    lead: Seq<char>,
    gap: Seq<char>,
    url: Seq<char>,
    options: Seq<Placed>,
) -> Seq<char> {
    command_text(lead, gap, url, options_text(options))
}

/// The text of some options can stand behind an option.
proof fn lemma_options_text_is_tail(options: Seq<Placed>)
    requires
        are_writable(options),
    ensures
        is_option_tail(options_text(options)),
        options.len() > 0 ==> options_text(options).len() >= 2 && options_text(options)[0] == ' ',
        options.len() > 0 && !options[0].continued ==> options_text(options)[1] != '\\',
        options.len() == 0 ==> options_text(options).len() == 0,
    decreases options.len(),
{
    reveal_strlit(" ");
    reveal_strlit("\\\n");
    if options.len() > 0 {
        let first = options[0];
        let rest = options.drop_first();
        assert forall|i: int| 0 <= i < rest.len() implies is_space_text((#[trigger] rest[i]).gap)
            && rest[i].option.is_writable() by {
            assert(rest[i] == options[i + 1]);
        }
        lemma_options_text_is_tail(rest);
        lemma_option_round_trip(first.option, options_text(rest));
        let body = first.gap + first.option.text(options_text(rest));
        assert(body.len() > 0);
        if first.gap.len() > 0 {
            assert(body[0] == first.gap[0]);
            assert(is_space_char(first.gap[0]));
        } else {
            assert(body[0] == first.option.text(options_text(rest))[0]);
        }
    }
}

/// What leads to an option is skipped in front of it.
proof fn lemma_lead_round_trip(continued: bool, gap: Seq<char>, text: Seq<char>)
    requires
        is_space_text(gap),
        text.len() > 0,
        text[0] == '-',
    ensures
        spec_option_lead(lead_text(continued, gap, text)) == text,
{
    reveal_strlit("\\\n");
    let cur = lead_text(continued, gap, text);
    if continued {
        lemma_literal_round_trip("\\\n"@, gap + text);
    } else {
        assert(cur =~= gap + text);
        if gap.len() > 0 {
            assert(cur[0] == gap[0]);
            assert(is_space_char(gap[0]));
        } else {
            assert(cur[0] == text[0]);
        }
        lemma_literal_mismatch(cur, "\\\n"@, 0, false);
    }
    assert(skip_optional(cur, "\\\n"@) == gap + text);
    lemma_run_round_trip(gap, text, CharClass::Space);
}

/// The option list, one step: behind the lead and an option that can be
/// written, the list goes on behind the space that follows, or ends.
proof fn lemma_option_list_step(
    continued: bool,
    gap: Seq<char>,
    option: Written,
    tail: Seq<char>,
    seen: Seq<OptionView>,
)
    requires
        is_space_text(gap),
        option.is_writable(),
        is_option_tail(tail),
    ensures
        spec_option_list(lead_text(continued, gap, option.text(tail)), seen) == match strip(
            tail,
            " "@,
            false,
        ) {
            Some(next) => spec_option_list(next, seen.push(option.meaning())),
            None => Ok((tail, seen.push(option.meaning()))),
        },
{
    lemma_option_round_trip(option, tail);
    lemma_lead_round_trip(continued, gap, option.text(tail));
}

/// The option list reads written options back one by one.
proof fn lemma_option_list_round_trip(
    continued: bool,
    gap: Seq<char>,
    option: Written,
    rest: Seq<Placed>,
    seen: Seq<OptionView>,
)
    requires
        is_space_text(gap),
        option.is_writable(),
        are_writable(rest),
    ensures
        spec_option_list(lead_text(continued, gap, option.text(options_text(rest))), seen) == done(
            Seq::empty(),
            seen.push(option.meaning()) + meanings(rest),
        ),
    decreases rest.len(),
{
    let tail = options_text(rest);
    lemma_options_text_is_tail(rest);
    lemma_option_list_step(continued, gap, option, tail, seen);
    if rest.len() == 0 {
        reveal_strlit(" ");
        lemma_literal_mismatch(tail, " "@, 0, false);
        assert(meanings(rest) =~= Seq::<OptionView>::empty());
        assert(seen.push(option.meaning()) + meanings(rest) =~= seen.push(option.meaning()));
    } else {
        let next = rest[0];
        let more = rest.drop_first();
        let behind = lead_text(next.continued, next.gap, next.option.text(options_text(more)));
        lemma_literal_round_trip(" "@, behind);
        assert forall|i: int| 0 <= i < more.len() implies is_space_text((#[trigger] more[i]).gap)
            && more[i].option.is_writable() by {
            assert(more[i] == rest[i + 1]);
        }
        lemma_option_list_round_trip(
            next.continued,
            next.gap,
            next.option,
            more,
            seen.push(option.meaning()),
        );
        assert(seen.push(option.meaning()).push(next.option.meaning()) + meanings(more)
            =~= seen.push(option.meaning()) + meanings(rest));
    }
}

/// An invocation that is written from a url without a single quote and from
/// options that can be written is read back, to its end, as the record of
/// that url and those options: the url, each header value, each cookie value
/// and the body are the very texts that were written.
pub proof fn lemma_invocation_round_trip(
    lead: Seq<char>,
    gap: Seq<char>,
    url: Seq<char>,
    options: Seq<Placed>,
)
    requires
        is_space_text(lead),
        is_space_text(gap),
        gap.len() > 0,
        is_free_of(url, '\''),
        are_writable(options),
    ensures
        spec_text_curl(invocation_text(lead, gap, url, options)) == done(
            Seq::empty(),
            CurlView::build(url, meanings(options)),
        ),
{
    reveal_strlit(" ");
    reveal_strlit("\\\n");
    reveal_strlit(" \\\n");
    let tail = options_text(options);
    lemma_command_round_trip(lead, gap, url, tail);
    lemma_options_text_is_tail(options);
    let none = Seq::<OptionView>::empty();
    if options.len() == 0 {
        lemma_literal_mismatch(tail, " \\\n"@, 0, false);
        lemma_literal_mismatch(tail, "\\\n"@, 0, false);
        lemma_run_round_trip(Seq::empty(), Seq::empty(), CharClass::Space);
        assert(Seq::<char>::empty() + Seq::<char>::empty() =~= Seq::<char>::empty());
        assert(tail =~= Seq::<char>::empty());
        assert(spec_option_lead(tail) =~= Seq::<char>::empty());
        assert(meanings(options) =~= none);
    } else {
        let first = options[0];
        let rest = options.drop_first();
        let text = first.option.text(options_text(rest));
        assert forall|i: int| 0 <= i < rest.len() implies is_space_text((#[trigger] rest[i]).gap)
            && rest[i].option.is_writable() by {
            assert(rest[i] == options[i + 1]);
        }
        assert(meanings(options) =~= none.push(first.option.meaning()) + meanings(rest));
        if first.continued {
            assert(tail =~= " \\\n"@ + (first.gap + text));
            lemma_literal_round_trip(" \\\n"@, first.gap + text);
            assert(first.gap + text =~= lead_text(false, first.gap, text));
            lemma_option_list_round_trip(false, first.gap, first.option, rest, none);
        } else {
            lemma_literal_mismatch(tail, " \\\n"@, 1, false);
            let wider = " "@ + first.gap;
            assert(tail =~= lead_text(false, wider, text));
            lemma_option_list_round_trip(false, wider, first.option, rest, none);
        }
    }
}

} // verus!
