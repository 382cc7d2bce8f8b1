//! The record that a parse produces, and the options that are folded into it.
use crate::strmap::{StrMap, TextMap};
use crate::token::same_text;
use vstd::prelude::*;
use vstd::std_specs::cmp::PartialEqSpecImpl;

verus! {

/// One option of an invocation, as text.
pub enum OptionView {
    /// A cookie header, with the cookies that it lists.
    Cookies(TextMap),
    /// Any other header: its name and its value.
    Header(Seq<char>, Seq<char>),
    /// The raw request body.
    DataRaw(Seq<char>),
    /// A flag: its name without the leading dashes, and its argument if it has one.
    Flag(Seq<char>, Option<Seq<char>>),
}

/// The text that a flag stores: its argument, or the empty text where it has none.
pub open spec fn flag_text(argument: Option<Seq<char>>) -> Seq<char> {
    match argument {
        Some(value) => value,
        None => Seq::empty(),
    }
}

/// The record of an invocation, as text.
pub struct CurlView {
    pub url: Seq<char>,
    pub cookies: TextMap,
    pub headers: TextMap,
    pub body: Seq<char>,
    pub flags: TextMap,
}

impl CurlView {
    /// The record of an invocation without options.
    pub open spec fn start(url: Seq<char>) -> CurlView {
        CurlView {
            url,
            cookies: TextMap::empty(),
            headers: TextMap::empty(),
            body: Seq::empty(),
            flags: TextMap::empty(),
        }
    }

    /// The record after one more option. A cookie header replaces the cookies
    /// as a whole, a body replaces the body, and a header or a flag replaces
    /// the value that stood under its name. A flag without an argument stores
    /// the empty text.
    pub open spec fn apply(self, option: OptionView) -> CurlView {
        match option {
            OptionView::Cookies(cookies) => CurlView { cookies, ..self },
            OptionView::Header(name, value) => CurlView {
                headers: self.headers.insert(name, value),
                ..self
            },
            OptionView::DataRaw(body) => CurlView { body, ..self },
            OptionView::Flag(name, argument) => CurlView {
                flags: self.flags.insert(name, flag_text(argument)),
                ..self
            },
        }
    }

    /// The record of an invocation of `url` with the options `options`,
    /// folded in from first to last.
    pub open spec fn build(url: Seq<char>, options: Seq<OptionView>) -> CurlView
        decreases options.len(),
    {
        if options.len() == 0 {
            CurlView::start(url)
        } else {
            CurlView::build(url, options.drop_last()).apply(options.last())
        }
    }
}

/// One option of an invocation.
#[derive(Debug)]
pub enum CurlOption<'a> {
    /// A cookie header, with the cookies that it lists.
    Cookies(StrMap<'a>),
    /// Any other header: its name and its value.
    Header(&'a str, &'a str),
    /// The raw request body.
    DataRaw(&'a str),
    /// A flag: its name without the leading dashes, and its argument if it has one.
    Flag(&'a str, Option<&'a str>),
}

impl<'a> View for CurlOption<'a> {
    type V = OptionView;

    open spec fn view(&self) -> OptionView {
        match self {
            CurlOption::Cookies(cookies) => OptionView::Cookies(cookies@),
            CurlOption::Header(name, value) => OptionView::Header(name@, value@),
            CurlOption::DataRaw(body) => OptionView::DataRaw(body@),
            CurlOption::Flag(name, argument) => OptionView::Flag(
                name@,
                match argument {
                    Some(value) => Some(value@),
                    None => None,
                },
            ),
        }
    }
}

/// The record of one invocation. Every text in it is a slice of the input.
#[derive(Debug)]
pub struct Curl<'a> {
    pub url: &'a str,
    pub options_header_cookies: StrMap<'a>,
    pub options_headers_more: StrMap<'a>,
    pub options_data_raw: &'a str,
    pub options_more: StrMap<'a>,
}

impl<'a> View for Curl<'a> {
    type V = CurlView;

    open spec fn view(&self) -> CurlView {
        CurlView {
            url: self.url@,
            cookies: self.options_header_cookies@,
            headers: self.options_headers_more@,
            body: self.options_data_raw@,
            flags: self.options_more@,
        }
    }
}

impl<'a> Curl<'a> {
    /// The record of an invocation of `url` without options.
    pub fn new(url: &'a str) -> (curl: Self)
        ensures
            curl@ == CurlView::start(url@),
    {
        let body = "";
        proof {
            reveal_strlit("");
            assert(body@ =~= Seq::<char>::empty());
        }
        Curl {
            url,
            options_header_cookies: StrMap::new(),
            options_headers_more: StrMap::new(),
            options_data_raw: body,
            options_more: StrMap::new(),
        }
    }

    /// Folds one option into the record. The option changes the one part of
    /// the record that its shape belongs to; the url and the other parts stay.
    pub fn apply(&mut self, option: CurlOption<'a>)
        ensures
            final(self)@ == old(self)@.apply(option@),
    {
        match option {
            CurlOption::Cookies(cookies) => {
                self.options_header_cookies = cookies;
            },
            CurlOption::Header(name, value) => {
                self.options_headers_more.insert(name, value);
            },
            CurlOption::DataRaw(body) => {
                self.options_data_raw = body;
            },
            CurlOption::Flag(name, argument) => {
                match argument {
                    Some(value) => {
                        self.options_more.insert(name, value);
                    },
                    None => {
                        let empty = "";
                        proof {
                            reveal_strlit("");
                            assert(empty@ =~= Seq::<char>::empty());
                        }
                        self.options_more.insert(name, empty);
                    },
                }
            },
        }
    }
}

impl<'a> PartialEq for Curl<'a> {
    /// Two records are equal when they hold the same text in every part.
    fn eq(&self, other: &Curl<'a>) -> (r: bool) {
        same_text(self.url, other.url) && self.options_header_cookies.eq(
            &other.options_header_cookies,
        ) && self.options_headers_more.eq(&other.options_headers_more) && same_text(
            self.options_data_raw,
            other.options_data_raw,
        ) && self.options_more.eq(&other.options_more)
    }
}

impl<'a> PartialEqSpecImpl for Curl<'a> {
    open spec fn obeys_eq_spec() -> bool {
        true
    }

    open spec fn eq_spec(&self, other: &Curl<'a>) -> bool {
        self@ == other@
    }
}

} // verus!
