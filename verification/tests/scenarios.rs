use curl_parser::{
    any_option, command, cookie_pairs, flag_name, key, option_lead, options_, options_data_raw,
    options_header_, options_header_cookie, quoted, text_curl, Curl, CurlOption, ErrorClass,
    ErrorKind, ParseError, StrMap,
};

fn map_of<'a>(pairs: &[(&'a str, &'a str)]) -> StrMap<'a> {
    let mut map = StrMap::new();
    for (k, v) in pairs {
        map.insert(k, v);
    }
    map
}

fn parsed(input: &str) -> Curl<'_> {
    match text_curl(input) {
        Ok((rest, curl)) => {
            assert_eq!(rest, "");
            curl
        }
        Err(e) => panic!("{:?}", e),
    }
}

fn failure(input: &str) -> ParseError<'_> {
    match text_curl(input) {
        Ok((rest, curl)) => panic!("parsed to {:?}, left {:?}", curl, rest),
        Err(e) => e,
    }
}

#[test]
fn flags_with_and_without_argument() {
    let curl = parsed("curl 'https://x.test/' -X 'GET' --compressed");
    assert_eq!(curl.url, "https://x.test/");
    assert_eq!(curl.options_more, map_of(&[("X", "GET"), ("compressed", "")]));
    assert_eq!(curl.options_more.len(), 2);
    assert_eq!(curl.options_more.get("X"), Some("GET"));
    assert_eq!(curl.options_more.get("compressed"), Some(""));
    assert!(curl.options_header_cookies.is_empty());
    assert!(curl.options_headers_more.is_empty());
    assert_eq!(curl.options_data_raw, "");
}

#[test]
fn cookie_header_fills_cookies() {
    let curl = parsed("curl 'https://x.test/' -H 'Cookie: a=1; b=2'");
    assert_eq!(curl.options_header_cookies, map_of(&[("a", "1"), ("b", "2")]));
    assert_eq!(curl.options_header_cookies.len(), 2);
    assert!(curl.options_headers_more.is_empty());
    assert!(curl.options_more.is_empty());
    assert_eq!(curl.options_data_raw, "");
}

#[test]
fn later_header_wins() {
    let curl = parsed("curl 'https://x.test/' -H 'Accept: */*' -H 'Accept: text/html'");
    assert_eq!(curl.options_headers_more, map_of(&[("Accept", "text/html")]));
    assert_eq!(curl.options_headers_more.len(), 1);
    assert_eq!(curl.options_headers_more.get("Accept"), Some("text/html"));
}

#[test]
fn later_flag_wins() {
    let curl = parsed("curl 'https://x.test/' -X 'GET' -X 'POST' --compressed --compressed 'x'");
    assert_eq!(curl.options_more, map_of(&[("X", "POST"), ("compressed", "x")]));
}

#[test]
fn later_cookie_of_one_name_wins() {
    let curl = parsed("curl 'https://x.test/' -H 'Cookie: a=1; b=2; a=3'");
    assert_eq!(curl.options_header_cookies, map_of(&[("a", "3"), ("b", "2")]));
    assert_eq!(curl.options_header_cookies.len(), 2);
}

#[test]
fn data_raw_fills_body() {
    let curl = parsed("curl 'https://x.test/' --data-raw 'k=v&x=y'");
    assert_eq!(curl.options_data_raw, "k=v&x=y");
    assert!(curl.options_more.is_empty());
    assert!(curl.options_headers_more.is_empty());
    assert!(curl.options_header_cookies.is_empty());
}

#[test]
fn later_body_wins_and_empty_body_is_empty() {
    let curl = parsed("curl 'https://x.test/' --data-raw 'a' --data-raw 'b'");
    assert_eq!(curl.options_data_raw, "b");
    let curl = parsed("curl 'https://x.test/' --data-raw ''");
    assert_eq!(curl.options_data_raw, "");
    assert!(curl.options_more.is_empty());
}

#[test]
fn last_cookie_header_wins_as_a_whole() {
    let curl = parsed("curl 'https://x.test/' -H 'Cookie: a=1' -H 'Cookie: b=2'");
    assert_eq!(curl.options_header_cookies, map_of(&[("b", "2")]));
    assert_eq!(curl.options_header_cookies.len(), 1);
    assert_eq!(curl.options_header_cookies.get("a"), None);
    assert!(curl.options_headers_more.is_empty());
}

#[test]
fn cookie_without_equals_fails_the_parse() {
    let e = failure("curl 'https://x.test/' -H 'Cookie: a'");
    assert_eq!(e, ParseError { input: "'", kind: ErrorKind::CookiePair });
    assert_eq!(e.kind.class(), ErrorClass::MalformedCookiePair);
}

#[test]
fn cookie_without_name_fails_the_parse() {
    let e = failure("curl 'https://x.test/' -H 'Cookie: =1'");
    assert_eq!(e, ParseError { input: "=1'", kind: ErrorKind::CookiePair });
    let e = failure("curl 'https://x.test/' -H 'cookie: a=1; '");
    assert_eq!(e, ParseError { input: "'", kind: ErrorKind::CookiePair });
    let e = failure("curl 'https://x.test/' --header 'COOKIE: '");
    assert_eq!(e, ParseError { input: "'", kind: ErrorKind::CookiePair });
}

#[test]
fn cookie_header_is_never_a_header() {
    for input in [
        "curl 'u' -H 'Cookie: a=1'",
        "curl 'u' -H 'cookie: a=1'",
        "curl 'u' --header 'COOKIE: a=1'",
        "curl 'u' --header 'cOoKiE: a=1'",
    ] {
        let curl = parsed(input);
        assert_eq!(curl.options_header_cookies, map_of(&[("a", "1")]));
        assert!(curl.options_headers_more.is_empty());
        assert!(curl.options_more.is_empty());
    }
    let curl = parsed("curl 'u' -H 'Cookie-Policy: a=1'");
    assert!(curl.options_header_cookies.is_empty());
    assert_eq!(curl.options_headers_more, map_of(&[("Cookie-Policy", "a=1")]));
}

#[test]
fn unclosed_cookie_header_fails_the_parse() {
    let e = failure("curl 'u' -H 'Cookie: a=1");
    assert_eq!(e, ParseError { input: "", kind: ErrorKind::CloseQuote });
    assert_eq!(e.kind.class(), ErrorClass::StructuralMismatch);
}

#[test]
fn missing_command_fails() {
    assert_eq!(
        failure("wget 'https://x.test/'"),
        ParseError { input: "wget 'https://x.test/'", kind: ErrorKind::Command }
    );
    assert_eq!(failure(""), ParseError { input: "", kind: ErrorKind::Command });
    assert_eq!(failure("  \n cur"), ParseError { input: "cur", kind: ErrorKind::Command });
    assert_eq!(failure("Curl 'u'"), ParseError { input: "Curl 'u'", kind: ErrorKind::Command });
}

#[test]
fn missing_whitespace_behind_the_command_fails() {
    assert_eq!(
        failure("curl'https://x.test/'"),
        ParseError { input: "'https://x.test/'", kind: ErrorKind::Whitespace }
    );
    assert_eq!(failure("curl"), ParseError { input: "", kind: ErrorKind::Whitespace });
}

#[test]
fn missing_quotes_round_the_url_fail() {
    assert_eq!(
        failure("curl https://x.test/"),
        ParseError { input: "https://x.test/", kind: ErrorKind::OpenQuote }
    );
    assert_eq!(
        failure("curl 'https://x.test/"),
        ParseError { input: "https://x.test/", kind: ErrorKind::CloseQuote }
    );
    assert_eq!(failure("curl  "), ParseError { input: "", kind: ErrorKind::OpenQuote });
}

#[test]
fn unrecognized_option_fails() {
    let e = failure("curl 'https://x.test/' garbage");
    assert_eq!(e, ParseError { input: "garbage", kind: ErrorKind::Option });
    assert_eq!(e.kind.class(), ErrorClass::UnrecognizedOption);
    let e = failure("curl 'u' -X 'GET' 'stray'");
    assert_eq!(e, ParseError { input: "'stray'", kind: ErrorKind::Option });
    let e = failure("curl 'u' -");
    assert_eq!(e, ParseError { input: "-", kind: ErrorKind::Option });
}

#[test]
fn every_kind_has_its_class() {
    assert_eq!(ErrorKind::Command.class(), ErrorClass::StructuralMismatch);
    assert_eq!(ErrorKind::Whitespace.class(), ErrorClass::StructuralMismatch);
    assert_eq!(ErrorKind::OpenQuote.class(), ErrorClass::StructuralMismatch);
    assert_eq!(ErrorKind::CloseQuote.class(), ErrorClass::StructuralMismatch);
    assert_eq!(ErrorKind::Prefix.class(), ErrorClass::StructuralMismatch);
    assert_eq!(ErrorKind::Separator.class(), ErrorClass::StructuralMismatch);
    assert_eq!(ErrorKind::FlagName.class(), ErrorClass::StructuralMismatch);
    assert_eq!(ErrorKind::CookiePair.class(), ErrorClass::MalformedCookiePair);
    assert_eq!(ErrorKind::Option.class(), ErrorClass::UnrecognizedOption);
}

#[test]
fn no_options_at_all() {
    let curl = parsed("curl 'https://x.test/'");
    assert_eq!(curl, Curl {
        url: "https://x.test/",
        options_header_cookies: StrMap::new(),
        options_headers_more: StrMap::new(),
        options_data_raw: "",
        options_more: StrMap::new(),
    });
    let curl = parsed("  \t\r\n curl \t 'u' \n ");
    assert_eq!(curl.url, "u");
    let curl = parsed("curl ''");
    assert_eq!(curl.url, "");
}

#[test]
fn input_behind_the_last_option_is_handed_back() {
    match text_curl("curl 'u' -X 'GET'\n-H 'Accept: */*'") {
        Ok((rest, curl)) => {
            assert_eq!(rest, "\n-H 'Accept: */*'");
            assert_eq!(curl.options_more, map_of(&[("X", "GET")]));
            assert!(curl.options_headers_more.is_empty());
        }
        Err(e) => panic!("{:?}", e),
    }
    match text_curl("curl 'u' --compressed'x'") {
        Ok((rest, curl)) => {
            assert_eq!(rest, "'x'");
            assert_eq!(curl.options_more, map_of(&[("compressed", "")]));
        }
        Err(e) => panic!("{:?}", e),
    }
}

#[test]
fn line_continuations_and_whitespace_between_options() {
    let curl = parsed("curl 'u' \\\n  -X 'GET' \\\n\t-H 'A: b' \\\n--compressed");
    assert_eq!(curl.url, "u");
    assert_eq!(curl.options_more, map_of(&[("X", "GET"), ("compressed", "")]));
    assert_eq!(curl.options_headers_more, map_of(&[("A", "b")]));
    let curl = parsed("curl 'u'   -X 'GET'  \n -H 'A: b' ");
    assert_eq!(curl.options_more, map_of(&[("X", "GET")]));
    assert_eq!(curl.options_headers_more, map_of(&[("A", "b")]));
    let curl = parsed("curl 'u'-X 'GET'");
    assert_eq!(curl.options_more, map_of(&[("X", "GET")]));
    let curl = parsed("curl 'u' -X 'GET' \\\n");
    assert_eq!(curl.options_more, map_of(&[("X", "GET")]));
}

#[test]
fn backslash_without_line_feed_is_no_continuation() {
    assert_eq!(
        failure("curl 'u' \\ -X 'GET'"),
        ParseError { input: "\\ -X 'GET'", kind: ErrorKind::Option }
    );
    assert_eq!(failure("curl 'u' \\"), ParseError { input: "\\", kind: ErrorKind::Option });
}

#[test]
fn options_in_another_order_give_the_same_record() {
    let a = parsed(
        "curl 'u' -X 'POST' -H 'A: 1' --data-raw 'body' -H 'Cookie: c=d' -H 'B: 2' --compressed",
    );
    let b = parsed(
        "curl 'u' --compressed -H 'B: 2' -H 'Cookie: c=d' \\\n --data-raw 'body' -H 'A: 1' -X 'POST'",
    );
    assert_eq!(a, b);
    assert_eq!(a.options_headers_more, map_of(&[("B", "2"), ("A", "1")]));
    let c = parsed("curl 'u' -X 'POST' -H 'A: 1' --data-raw 'body' -H 'Cookie: c=d' -H 'B: 3'");
    assert_ne!(a, c);
}

#[test]
fn parsing_again_gives_the_same_record() {
    let input = "curl 'https://x.test/?q=1' -H 'Accept: */*' -H 'Cookie: a=1; b=2' --data-raw 'x' -X 'PUT'";
    assert_eq!(text_curl(input), text_curl(input));
    let copy = String::from(input);
    assert_eq!(parsed(input), parsed(&copy));
    let bad = "curl 'u' -H 'Cookie: a'";
    assert_eq!(text_curl(bad), text_curl(bad));
    assert!(text_curl(bad).is_err());
}

#[test]
fn texts_are_handed_back_untrimmed_and_undecoded() {
    let curl = parsed(
        "curl ' https://x.test/a%20b?q=\"1\"&r=\\n ' -H 'X-Pad:   two  spaces  ' -H 'Cookie: a= 1 ; b=%3D=x' --data-raw ' {\"k\": \"v\\u00e9\"} '",
    );
    assert_eq!(curl.url, " https://x.test/a%20b?q=\"1\"&r=\\n ");
    assert_eq!(curl.options_headers_more.get("X-Pad"), Some("  two  spaces  "));
    assert_eq!(curl.options_header_cookies.get("a"), Some(" 1 "));
    assert_eq!(curl.options_header_cookies.get("b"), Some("%3D=x"));
    assert_eq!(curl.options_data_raw, " {\"k\": \"v\\u00e9\"} ");
}

#[test]
fn text_beyond_ascii() {
    let curl = parsed("curl 'https://x.test/caf\u{e9}?q=\u{65e5}\u{672c}' -H 'X-Name: \u{1f600} na\u{ef}ve' -\u{e9} '\u{df}' --data-raw '\u{20ac}5' -H 'Cookie: k=\u{3b1}\u{3b2}'");
    assert_eq!(curl.url, "https://x.test/caf\u{e9}?q=\u{65e5}\u{672c}");
    assert_eq!(curl.options_headers_more.get("X-Name"), Some("\u{1f600} na\u{ef}ve"));
    assert_eq!(curl.options_more.get("\u{e9}"), Some("\u{df}"));
    assert_eq!(curl.options_data_raw, "\u{20ac}5");
    assert_eq!(curl.options_header_cookies.get("k"), Some("\u{3b1}\u{3b2}"));
    let curl = parsed("curl 'u' -H 'n\u{e4}me: v'");
    assert!(curl.options_headers_more.is_empty());
    assert_eq!(curl.options_more, map_of(&[("H", "n\u{e4}me: v")]));
}

#[test]
fn kelvin_sign_is_no_letter_k() {
    let curl = parsed("curl 'u' -H 'coo\u{212a}ie: a=1'");
    assert!(curl.options_header_cookies.is_empty());
    assert!(curl.options_headers_more.is_empty());
    assert_eq!(curl.options_more, map_of(&[("H", "coo\u{212a}ie: a=1")]));
}

#[test]
fn key_takes_the_longest_run() {
    assert_eq!(key("Accept-Encoding: gzip"), Ok((": gzip", "Accept-Encoding")));
    assert_eq!(key("a_b-9Z"), Ok(("", "a_b-9Z")));
    assert_eq!(key(""), Ok(("", "")));
    assert_eq!(key(" x"), Ok((" x", "")));
    assert_eq!(key("caf\u{e9}"), Ok(("\u{e9}", "caf")));
    assert_eq!(key("a.b"), Ok((".b", "a")));
}

#[test]
fn quoted_stops_at_the_first_quote() {
    assert_eq!(quoted("abc' def"), Some((" def", "abc")));
    assert_eq!(quoted("'"), Some(("", "")));
    assert_eq!(quoted("it's'"), Some(("s'", "it")));
    assert_eq!(quoted("abc"), None);
    assert_eq!(quoted(""), None);
}

#[test]
fn cookie_pairs_alone() {
    match cookie_pairs("a=1;b=2;  c=3' rest") {
        Ok((rest, cookies)) => {
            assert_eq!(rest, "' rest");
            assert_eq!(cookies, map_of(&[("a", "1"), ("b", "2"), ("c", "3")]));
        }
        Err(e) => panic!("{:?}", e),
    }
    match cookie_pairs("a=") {
        Ok((rest, cookies)) => {
            assert_eq!(rest, "");
            assert_eq!(cookies, map_of(&[("a", "")]));
        }
        Err(e) => panic!("{:?}", e),
    }
    assert_eq!(
        cookie_pairs("a =1").map(|_| ()),
        Err(ParseError { input: " =1", kind: ErrorKind::CookiePair })
    );
    assert_eq!(
        cookie_pairs("a=1;").map(|_| ()),
        Err(ParseError { input: "", kind: ErrorKind::CookiePair })
    );
    assert_eq!(
        cookie_pairs("").map(|_| ()),
        Err(ParseError { input: "", kind: ErrorKind::CookiePair })
    );
    assert_eq!(
        cookie_pairs("a=1; b").map(|_| ()),
        Err(ParseError { input: "", kind: ErrorKind::CookiePair })
    );
}

#[test]
fn cookie_header_alone() {
    assert_eq!(
        options_header_cookie("-X 'GET'").map(|_| ()),
        Err(ParseError { input: "-X 'GET'", kind: ErrorKind::Prefix })
    );
    assert_eq!(
        options_header_cookie("-H 'Accept: */*'").map(|_| ()),
        Err(ParseError { input: "'Accept: */*'", kind: ErrorKind::Prefix })
    );
    assert_eq!(
        options_header_cookie("--header 'Cookie: a=1;b'").map(|_| ()),
        Err(ParseError { input: "'", kind: ErrorKind::CookiePair })
    );
    assert_eq!(
        options_header_cookie("--header 'Cookie: a=1;b=2' -X"),
        Ok((" -X", map_of(&[("b", "2"), ("a", "1")])))
    );
}

#[test]
fn header_alone() {
    assert_eq!(options_header_("--header 'A: b' x"), Ok((" x", ("A", "b"))));
    assert_eq!(options_header_("-H ': b'"), Ok(("", ("", "b"))));
    assert_eq!(options_header_("-H 'A: '"), Ok(("", ("A", ""))));
    assert_eq!(
        options_header_("-X 'GET'"),
        Err(ParseError { input: "-X 'GET'", kind: ErrorKind::Prefix })
    );
    assert_eq!(
        options_header_("-H 'Accept */*'"),
        Err(ParseError { input: " */*'", kind: ErrorKind::Separator })
    );
    assert_eq!(
        options_header_("-H 'Accept:*/*'"),
        Err(ParseError { input: ":*/*'", kind: ErrorKind::Separator })
    );
    assert_eq!(
        options_header_("-H 'Accept: */*"),
        Err(ParseError { input: "*/*", kind: ErrorKind::CloseQuote })
    );
}

#[test]
fn data_raw_alone() {
    assert_eq!(options_data_raw("--data-raw ''"), Ok(("", "")));
    assert_eq!(
        options_data_raw("--data 'x'"),
        Err(ParseError { input: "--data 'x'", kind: ErrorKind::Prefix })
    );
    assert_eq!(
        options_data_raw("--data-raw 'x"),
        Err(ParseError { input: "x", kind: ErrorKind::CloseQuote })
    );
}

#[test]
fn flag_alone() {
    assert_eq!(flag_name("--compressed x"), Ok((" x", "compressed")));
    assert_eq!(flag_name("-Xy"), Ok(("y", "X")));
    assert_eq!(options_("--"), Ok(("", ("", None))));
    assert_eq!(options_("-- 'x'"), Ok(("", ("", Some("x")))));
    assert_eq!(options_("-X 'GET"), Ok((" 'GET", ("X", None))));
    assert_eq!(options_("-X  'GET'"), Ok(("  'GET'", ("X", None))));
    assert_eq!(options_("-\u{1f600}"), Ok(("", ("\u{1f600}", None))));
    assert_eq!(options_("-"), Err(ParseError { input: "", kind: ErrorKind::FlagName }));
    assert_eq!(options_("X"), Err(ParseError { input: "X", kind: ErrorKind::Prefix }));
    assert_eq!(options_(""), Err(ParseError { input: "", kind: ErrorKind::Prefix }));
}

#[test]
fn the_first_shape_that_matches_takes_the_option() {
    match any_option("-H 'Cookie: a=1' x") {
        Ok((rest, CurlOption::Cookies(cookies))) => {
            assert_eq!(rest, " x");
            assert_eq!(cookies, map_of(&[("a", "1")]));
        }
        other => panic!("{:?}", other),
    }
    match any_option("--header 'Accept: */*'") {
        Ok((rest, CurlOption::Header(name, value))) => {
            assert_eq!((rest, name, value), ("", "Accept", "*/*"));
        }
        other => panic!("{:?}", other),
    }
    match any_option("--data-raw 'x=1'") {
        Ok((rest, CurlOption::DataRaw(body))) => {
            assert_eq!((rest, body), ("", "x=1"));
        }
        other => panic!("{:?}", other),
    }
    match any_option("--data-raw") {
        Ok((rest, CurlOption::Flag(name, argument))) => {
            assert_eq!((rest, name, argument), ("", "data-raw", None));
        }
        other => panic!("{:?}", other),
    }
    match any_option("-H 'no separator'") {
        Ok((rest, CurlOption::Flag(name, argument))) => {
            assert_eq!((rest, name, argument), ("", "H", Some("no separator")));
        }
        other => panic!("{:?}", other),
    }
    match any_option("-H 'Cookie: a=1;'") {
        Err(e) => assert_eq!(e, ParseError { input: "'", kind: ErrorKind::CookiePair }),
        other => panic!("{:?}", other),
    }
    match any_option("x") {
        Err(e) => assert_eq!(e, ParseError { input: "x", kind: ErrorKind::Option }),
        other => panic!("{:?}", other),
    }
}

#[test]
fn command_alone() {
    assert_eq!(command("curl 'u' -X"), Ok((" -X", "u")));
    assert_eq!(command("curl 'u' \\\n -X"), Ok((" -X", "u")));
    assert_eq!(command("curl 'u' \\ -X"), Ok((" \\ -X", "u")));
    assert_eq!(command("\tcurl\n'u'"), Ok(("", "u")));
    assert_eq!(option_lead("\\\n \t -X"), "-X");
    assert_eq!(option_lead("  \\\n -X"), "\\\n -X");
    assert_eq!(option_lead(""), "");
}

#[test]
fn one_option_changes_one_part() {
    let mut curl = Curl::new("u");
    curl.apply(CurlOption::Header("A", "1"));
    assert_eq!(curl, Curl {
        url: "u",
        options_header_cookies: StrMap::new(),
        options_headers_more: map_of(&[("A", "1")]),
        options_data_raw: "",
        options_more: StrMap::new(),
    });
    curl.apply(CurlOption::Flag("A", Some("2")));
    curl.apply(CurlOption::Flag("B", None));
    assert_eq!(curl.options_headers_more, map_of(&[("A", "1")]));
    assert_eq!(curl.options_more, map_of(&[("A", "2"), ("B", "")]));
    curl.apply(CurlOption::DataRaw("body"));
    curl.apply(CurlOption::Cookies(map_of(&[("c", "d")])));
    assert_eq!(curl, Curl {
        url: "u",
        options_header_cookies: map_of(&[("c", "d")]),
        options_headers_more: map_of(&[("A", "1")]),
        options_data_raw: "body",
        options_more: map_of(&[("B", ""), ("A", "2")]),
    });
}

#[test]
fn str_map_keeps_one_value_per_key() {
    let mut map = StrMap::new();
    assert!(map.is_empty());
    assert_eq!(map.len(), 0);
    assert_eq!(map.entry(0), None);
    map.insert("a", "1");
    map.insert("b", "2");
    map.insert("a", "3");
    assert!(!map.is_empty());
    assert_eq!(map.len(), 2);
    assert_eq!(map.get("a"), Some("3"));
    assert_eq!(map.get("b"), Some("2"));
    assert_eq!(map.get("c"), None);
    assert!(map.contains_key("a"));
    assert!(!map.contains_key("A"));
    assert_eq!(map.entry(0), Some(("a", "3")));
    assert_eq!(map.entry(1), Some(("b", "2")));
    assert_eq!(map.entry(2), None);
    let key = String::from("a");
    assert_eq!(map.get(&key), Some("3"));
}

#[test]
fn str_map_equality_ignores_order() {
    let a = map_of(&[("a", "1"), ("b", "2")]);
    let b = map_of(&[("b", "2"), ("a", "1")]);
    let c = map_of(&[("a", "1")]);
    let d = map_of(&[("a", "1"), ("b", "3")]);
    assert_eq!(a, b);
    assert_ne!(a, c);
    assert_ne!(c, a);
    assert_ne!(a, d);
    assert!(c.is_part_of(&a));
    assert!(!a.is_part_of(&c));
    assert!(StrMap::new().is_part_of(&c));
}
