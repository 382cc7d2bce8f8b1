//! What holds of every record, whatever the options that were folded into it.
use crate::error::ParseError;
use crate::grammar::{
    collect, done, spec_command, spec_cookie_list, spec_cookie_pairs, spec_option_list,
    spec_text_curl,
};
use crate::parser::outcome_of;
use crate::record::{flag_text, Curl, CurlView, OptionView};
use crate::strmap::Pairs;
use vstd::prelude::*;

verus! {

/// The four parts of a record that options fill.
pub enum Part {
    Cookies,
    Headers,
    Body,
    Flags,
}

/// The part of the record that an option goes into.
pub open spec fn part_of(option: OptionView) -> Part {
    match option {
        OptionView::Cookies(_) => Part::Cookies,
        OptionView::Header(_, _) => Part::Headers,
        OptionView::DataRaw(_) => Part::Body,
        OptionView::Flag(_, _) => Part::Flags,
    }
}

/// Whether two records agree in the url and in every part but `part`.
pub open spec fn same_but(a: CurlView, b: CurlView, part: Part) -> bool {
    &&& a.url == b.url
    &&& part != Part::Cookies ==> a.cookies == b.cookies
    &&& part != Part::Headers ==> a.headers == b.headers
    &&& part != Part::Body ==> a.body == b.body
    &&& part != Part::Flags ==> a.flags == b.flags
}

/// Whether `option` is a header of the name `name`.
pub open spec fn names_header(option: OptionView, name: Seq<char>) -> bool {
    match option {
        OptionView::Header(n, _) => n == name,
        _ => false,
    }
}

/// Whether `option` is a flag of the name `name`.
pub open spec fn names_flag(option: OptionView, name: Seq<char>) -> bool {
    match option {
        OptionView::Flag(n, _) => n == name,
        _ => false,
    }
}

/// Whether `option` is a flag of the name `name` that stores the text `text`.
pub open spec fn is_flag(option: OptionView, name: Seq<char>, text: Seq<char>) -> bool {
    match option {
        OptionView::Flag(n, argument) => n == name && flag_text(argument) == text,
        _ => false,
    }
}

/// Whether two options go into the same place of a record: both are cookie
/// headers, both are bodies, or both are headers, or flags, of one name.
pub open spec fn same_place(a: OptionView, b: OptionView) -> bool {
    match a {
        OptionView::Cookies(_) => b is Cookies,
        OptionView::Header(name, _) => names_header(b, name),
        OptionView::DataRaw(_) => b is DataRaw,
        OptionView::Flag(name, _) => names_flag(b, name),
    }
}

/// Whether no two of the options go into the same place of a record.
pub open spec fn distinct_places(options: Seq<OptionView>) -> bool {
    forall|i: int, j: int|
        0 <= i < j < options.len() ==> !same_place(#[trigger] options[i], #[trigger] options[j])
}

/// Each option goes into exactly one part of the record: the part of its
/// shape takes what the option brings, and the url and the other three parts
/// stay as they were.
pub proof fn lemma_option_fills_one_part(record: CurlView, option: OptionView)
    ensures
        same_but(record, record.apply(option), part_of(option)),
        match option {
            OptionView::Cookies(cookies) => record.apply(option).cookies == cookies,
            OptionView::Header(name, value) => record.apply(option).headers
                == record.headers.insert(name, value),
            OptionView::DataRaw(body) => record.apply(option).body == body,
            OptionView::Flag(name, argument) => record.apply(option).flags
                == record.flags.insert(name, flag_text(argument)),
        },
{
}

/// Of two options that go into the same place, folded in one after the
/// other, only the later one shows in the record.
pub proof fn lemma_later_option_replaces(record: CurlView, earlier: OptionView, later: OptionView)
    requires
        same_place(earlier, later),
    ensures
        record.apply(earlier).apply(later) == record.apply(later),
{
    match earlier {
        OptionView::Header(name, value) => {
            assert(record.apply(earlier).apply(later).headers =~= record.apply(later).headers);
        },
        OptionView::Flag(name, argument) => {
            assert(record.apply(earlier).apply(later).flags =~= record.apply(later).flags);
        },
        _ => {},
    }
}

/// The options leave the url alone.
pub proof fn lemma_build_keeps_url(url: Seq<char>, options: Seq<OptionView>)
    ensures
        CurlView::build(url, options).url == url,
    decreases options.len(),
{
    if options.len() > 0 {
        lemma_build_keeps_url(url, options.drop_last());
    }
}

/// The header at index `i` shows in the record with its value, unless a
/// later header has the same name.
pub proof fn lemma_last_header_wins(url: Seq<char>, options: Seq<OptionView>, i: int)
    requires
        0 <= i < options.len(),
        options[i] is Header,
        forall|j: int| i < j < options.len() ==> !same_place(options[i], #[trigger] options[j]),
    ensures
        CurlView::build(url, options).headers.contains_key(options[i]->Header_0),
        CurlView::build(url, options).headers[options[i]->Header_0] == options[i]->Header_1,
    decreases options.len(),
{
    if i < options.len() - 1 {
        let front = options.drop_last();
        assert(front[i] == options[i]);
        assert forall|j: int| i < j < front.len() implies !same_place(
            front[i],
            #[trigger] front[j],
        ) by {
            assert(front[j] == options[j]);
        }
        lemma_last_header_wins(url, front, i);
        assert(!same_place(options[i], options[options.len() - 1]));
    }
}

/// The flag at index `i` shows in the record with its text, unless a later
/// flag has the same name.
pub proof fn lemma_last_flag_wins(url: Seq<char>, options: Seq<OptionView>, i: int)
    requires
        0 <= i < options.len(),
        options[i] is Flag,
        forall|j: int| i < j < options.len() ==> !same_place(options[i], #[trigger] options[j]),
    ensures
        CurlView::build(url, options).flags.contains_key(options[i]->Flag_0),
        CurlView::build(url, options).flags[options[i]->Flag_0] == flag_text(options[i]->Flag_1),
    decreases options.len(),
{
    if i < options.len() - 1 {
        let front = options.drop_last();
        assert(front[i] == options[i]);
        assert forall|j: int| i < j < front.len() implies !same_place(
            front[i],
            #[trigger] front[j],
        ) by {
            assert(front[j] == options[j]);
        }
        lemma_last_flag_wins(url, front, i);
        assert(!same_place(options[i], options[options.len() - 1]));
    }
}

/// The cookies of the record are those of the last cookie header, as a
/// whole: nothing of an earlier cookie header is left.
pub proof fn lemma_last_cookies_win(url: Seq<char>, options: Seq<OptionView>, i: int)
    requires
        0 <= i < options.len(),
        options[i] is Cookies,
        forall|j: int| i < j < options.len() ==> !(#[trigger] options[j] is Cookies),
    ensures
        CurlView::build(url, options).cookies == options[i]->Cookies_0,
    decreases options.len(),
{
    if i < options.len() - 1 {
        let front = options.drop_last();
        assert(front[i] == options[i]);
        assert forall|j: int| i < j < front.len() implies !(#[trigger] front[j] is Cookies) by {
            assert(front[j] == options[j]);
        }
        lemma_last_cookies_win(url, front, i);
        assert(!(options[options.len() - 1] is Cookies));
    }
}

/// The body of the record is that of the last raw body option.
pub proof fn lemma_last_body_wins(url: Seq<char>, options: Seq<OptionView>, i: int)
    requires
        0 <= i < options.len(),
        options[i] is DataRaw,
        forall|j: int| i < j < options.len() ==> !(#[trigger] options[j] is DataRaw),
    ensures
        CurlView::build(url, options).body == options[i]->DataRaw_0,
    decreases options.len(),
{
    if i < options.len() - 1 {
        let front = options.drop_last();
        assert(front[i] == options[i]);
        assert forall|j: int| i < j < front.len() implies !(#[trigger] front[j] is DataRaw) by {
            assert(front[j] == options[j]);
        }
        lemma_last_body_wins(url, front, i);
        assert(!(options[options.len() - 1] is DataRaw));
    }
}

/// A name has a header in the record exactly where some header option has
/// that name, and the value in the record is that of one of these options.
pub proof fn lemma_header_source(url: Seq<char>, options: Seq<OptionView>, name: Seq<char>)
    ensures
        CurlView::build(url, options).headers.contains_key(name) <==> exists|i: int|
            0 <= i < options.len() && names_header(#[trigger] options[i], name),
        CurlView::build(url, options).headers.contains_key(name) ==> exists|i: int|
            0 <= i < options.len() && #[trigger] options[i] == OptionView::Header(
                name,
                CurlView::build(url, options).headers[name],
            ),
    decreases options.len(),
{
    let record = CurlView::build(url, options);
    if options.len() > 0 {
        let front = options.drop_last();
        let last = options.last();
        let before = CurlView::build(url, front);
        lemma_header_source(url, front, name);
        if names_header(last, name) {
            assert(options[options.len() - 1] == OptionView::Header(name, record.headers[name]));
        } else {
            assert(record.headers.contains_key(name) == before.headers.contains_key(name));
            if before.headers.contains_key(name) {
                let i = choose|i: int|
                    0 <= i < front.len() && #[trigger] front[i] == OptionView::Header(
                        name,
                        before.headers[name],
                    );
                assert(options[i] == front[i]);
                assert(names_header(options[i], name));
                assert(record.headers[name] == before.headers[name]);
            }
            if exists|i: int| 0 <= i < options.len() && names_header(#[trigger] options[i], name) {
                let i = choose|i: int|
                    0 <= i < options.len() && names_header(#[trigger] options[i], name);
                assert(front[i] == options[i]);
            }
        }
    }
}

/// A name has a flag in the record exactly where some flag option has that
/// name, and the text in the record is that of one of these options.
pub proof fn lemma_flag_source(url: Seq<char>, options: Seq<OptionView>, name: Seq<char>)
    ensures
        CurlView::build(url, options).flags.contains_key(name) <==> exists|i: int|
            0 <= i < options.len() && names_flag(#[trigger] options[i], name),
        CurlView::build(url, options).flags.contains_key(name) ==> exists|i: int|
            0 <= i < options.len() && is_flag(
                #[trigger] options[i],
                name,
                CurlView::build(url, options).flags[name],
            ),
    decreases options.len(),
{
    let record = CurlView::build(url, options);
    if options.len() > 0 {
        let front = options.drop_last();
        let last = options.last();
        let before = CurlView::build(url, front);
        lemma_flag_source(url, front, name);
        if names_flag(last, name) {
            assert(is_flag(options[options.len() - 1], name, record.flags[name]));
        } else {
            assert(record.flags.contains_key(name) == before.flags.contains_key(name));
            if before.flags.contains_key(name) {
                let i = choose|i: int|
                    0 <= i < front.len() && is_flag(#[trigger] front[i], name, before.flags[name]);
                assert(options[i] == front[i]);
                assert(names_flag(options[i], name));
                assert(record.flags[name] == before.flags[name]);
            }
            if exists|i: int| 0 <= i < options.len() && names_flag(#[trigger] options[i], name) {
                let i = choose|i: int|
                    0 <= i < options.len() && names_flag(#[trigger] options[i], name);
                assert(front[i] == options[i]);
            }
        }
    }
}

/// The cookies of the record are those of one of the cookie headers; without
/// a cookie header the record has no cookies.
pub proof fn lemma_cookies_source(url: Seq<char>, options: Seq<OptionView>)
    ensures
        (exists|i: int| 0 <= i < options.len() && #[trigger] options[i] is Cookies) ==> exists|
            i: int,
        |
            0 <= i < options.len() && #[trigger] options[i] == OptionView::Cookies(
                CurlView::build(url, options).cookies,
            ),
        !(exists|i: int| 0 <= i < options.len() && #[trigger] options[i] is Cookies)
            ==> CurlView::build(url, options).cookies == Map::<Seq<char>, Seq<char>>::empty(),
    decreases options.len(),
{
    let record = CurlView::build(url, options);
    if options.len() > 0 {
        let front = options.drop_last();
        let last = options.last();
        let before = CurlView::build(url, front);
        lemma_cookies_source(url, front);
        if last is Cookies {
            assert(options[options.len() - 1] == OptionView::Cookies(record.cookies));
        } else {
            assert(record.cookies == before.cookies);
            if exists|i: int| 0 <= i < options.len() && #[trigger] options[i] is Cookies {
                let i = choose|i: int| 0 <= i < options.len() && #[trigger] options[i] is Cookies;
                assert(front[i] == options[i]);
                let j = choose|j: int|
                    0 <= j < front.len() && #[trigger] front[j] == OptionView::Cookies(
                        before.cookies,
                    );
                assert(options[j] == front[j]);
            } else {
                assert forall|i: int| 0 <= i < front.len() implies !(#[trigger] front[i]
                    is Cookies) by {
                    assert(front[i] == options[i]);
                }
            }
        }
    }
}

/// The body of the record is that of one of the raw body options; without
/// such an option the body is empty.
pub proof fn lemma_body_source(url: Seq<char>, options: Seq<OptionView>)
    ensures
        (exists|i: int| 0 <= i < options.len() && #[trigger] options[i] is DataRaw) ==> exists|
            i: int,
        |
            0 <= i < options.len() && #[trigger] options[i] == OptionView::DataRaw(
                CurlView::build(url, options).body,
            ),
        !(exists|i: int| 0 <= i < options.len() && #[trigger] options[i] is DataRaw)
            ==> CurlView::build(url, options).body == Seq::<char>::empty(),
    decreases options.len(),
{
    let record = CurlView::build(url, options);
    if options.len() > 0 {
        let front = options.drop_last();
        let last = options.last();
        let before = CurlView::build(url, front);
        lemma_body_source(url, front);
        if last is DataRaw {
            assert(options[options.len() - 1] == OptionView::DataRaw(record.body));
        } else {
            assert(record.body == before.body);
            if exists|i: int| 0 <= i < options.len() && #[trigger] options[i] is DataRaw {
                let i = choose|i: int| 0 <= i < options.len() && #[trigger] options[i] is DataRaw;
                assert(front[i] == options[i]);
                let j = choose|j: int|
                    0 <= j < front.len() && #[trigger] front[j] == OptionView::DataRaw(
                        before.body,
                    );
                assert(options[j] == front[j]);
            } else {
                assert forall|i: int| 0 <= i < front.len() implies !(#[trigger] front[i]
                    is DataRaw) by {
                    assert(front[i] == options[i]);
                }
            }
        }
    }
}

/// Two lists with the same options, each as often as in the other, have the same members.
proof fn lemma_same_members(a: Seq<OptionView>, b: Seq<OptionView>, option: OptionView)
    requires
        a.to_multiset() == b.to_multiset(),
    ensures
        a.contains(option) <==> b.contains(option),
{
    vstd::seq_lib::to_multiset_contains(a, option);
    vstd::seq_lib::to_multiset_contains(b, option);
}

/// The option of `a` that goes into the place of `option`, where `a` holds `option`.
proof fn lemma_place_is_taken_once(a: Seq<OptionView>, i: int, j: int)
    requires
        distinct_places(a),
        0 <= i < a.len(),
        0 <= j < a.len(),
        same_place(a[i], a[j]),
    ensures
        i == j,
{
    if i < j {
        assert(!same_place(a[i], a[j]));
    } else if j < i {
        assert(!same_place(a[j], a[i]));
    }
}

/// The order of the options does not matter where no two of them go into
/// the same place: the options of `a` in any other order, `b`, give the same record.
pub proof fn lemma_order_does_not_matter(url: Seq<char>, a: Seq<OptionView>, b: Seq<OptionView>)
    requires
        a.to_multiset() == b.to_multiset(),
        distinct_places(a),
    ensures
        CurlView::build(url, a) == CurlView::build(url, b),
{
    let ra = CurlView::build(url, a);
    let rb = CurlView::build(url, b);
    lemma_build_keeps_url(url, a);
    lemma_build_keeps_url(url, b);
    assert forall|name: Seq<char>|
        #![trigger ra.headers.dom().contains(name)]
        #![trigger rb.headers.dom().contains(name)]
        ra.headers.dom().contains(name) == rb.headers.dom().contains(name) && (
        ra.headers.dom().contains(name) ==> ra.headers[name] == rb.headers[name]) by {
        lemma_header_source(url, a, name);
        lemma_header_source(url, b, name);
        if ra.headers.contains_key(name) {
            let i = choose|i: int|
                0 <= i < a.len() && #[trigger] a[i] == OptionView::Header(name, ra.headers[name]);
            lemma_same_members(a, b, a[i]);
            assert(a.contains(a[i]));
            let j = choose|j: int| 0 <= j < b.len() && b[j] == a[i];
            assert(names_header(b[j], name));
        }
        if rb.headers.contains_key(name) {
            let j = choose|j: int|
                0 <= j < b.len() && #[trigger] b[j] == OptionView::Header(name, rb.headers[name]);
            lemma_same_members(a, b, b[j]);
            assert(b.contains(b[j]));
            let i = choose|i: int| 0 <= i < a.len() && a[i] == b[j];
            assert(names_header(a[i], name));
            let i2 = choose|i2: int|
                0 <= i2 < a.len() && #[trigger] a[i2] == OptionView::Header(
                    name,
                    ra.headers[name],
                );
            lemma_place_is_taken_once(a, i, i2);
        }
    }
    assert(ra.headers =~= rb.headers);
    assert forall|name: Seq<char>|
        #![trigger ra.flags.dom().contains(name)]
        #![trigger rb.flags.dom().contains(name)]
        ra.flags.dom().contains(name) == rb.flags.dom().contains(name) && (
        ra.flags.dom().contains(name) ==> ra.flags[name] == rb.flags[name]) by {
        lemma_flag_source(url, a, name);
        lemma_flag_source(url, b, name);
        if ra.flags.contains_key(name) {
            let i = choose|i: int|
                0 <= i < a.len() && is_flag(#[trigger] a[i], name, ra.flags[name]);
            lemma_same_members(a, b, a[i]);
            assert(a.contains(a[i]));
            let j = choose|j: int| 0 <= j < b.len() && b[j] == a[i];
            assert(names_flag(b[j], name));
        }
        if rb.flags.contains_key(name) {
            let j = choose|j: int|
                0 <= j < b.len() && is_flag(#[trigger] b[j], name, rb.flags[name]);
            lemma_same_members(a, b, b[j]);
            assert(b.contains(b[j]));
            let i = choose|i: int| 0 <= i < a.len() && a[i] == b[j];
            assert(names_flag(a[i], name));
            let i2 = choose|i2: int|
                0 <= i2 < a.len() && is_flag(#[trigger] a[i2], name, ra.flags[name]);
            lemma_place_is_taken_once(a, i, i2);
        }
    }
    assert(ra.flags =~= rb.flags);
    assert(ra.cookies == rb.cookies) by {
        lemma_cookies_source(url, a);
        lemma_cookies_source(url, b);
        if exists|i: int| 0 <= i < a.len() && #[trigger] a[i] is Cookies {
            let i = choose|i: int|
                0 <= i < a.len() && #[trigger] a[i] == OptionView::Cookies(ra.cookies);
            lemma_same_members(a, b, a[i]);
            assert(a.contains(a[i]));
            let j = choose|j: int| 0 <= j < b.len() && b[j] == a[i];
            assert(b[j] is Cookies);
            let j2 = choose|j2: int|
                0 <= j2 < b.len() && #[trigger] b[j2] == OptionView::Cookies(rb.cookies);
            lemma_same_members(a, b, b[j2]);
            assert(b.contains(b[j2]));
            let i2 = choose|i2: int| 0 <= i2 < a.len() && a[i2] == b[j2];
            lemma_place_is_taken_once(a, i, i2);
        } else {
            if exists|j: int| 0 <= j < b.len() && #[trigger] b[j] is Cookies {
                let j = choose|j: int| 0 <= j < b.len() && #[trigger] b[j] is Cookies;
                lemma_same_members(a, b, b[j]);
                assert(b.contains(b[j]));
                let i = choose|i: int| 0 <= i < a.len() && a[i] == b[j];
                assert(a[i] is Cookies);
            }
        }
    }
    assert(ra.body == rb.body) by {
        lemma_body_source(url, a);
        lemma_body_source(url, b);
        if exists|i: int| 0 <= i < a.len() && #[trigger] a[i] is DataRaw {
            let i = choose|i: int|
                0 <= i < a.len() && #[trigger] a[i] == OptionView::DataRaw(ra.body);
            lemma_same_members(a, b, a[i]);
            assert(a.contains(a[i]));
            let j = choose|j: int| 0 <= j < b.len() && b[j] == a[i];
            assert(b[j] is DataRaw);
            let j2 = choose|j2: int|
                0 <= j2 < b.len() && #[trigger] b[j2] == OptionView::DataRaw(rb.body);
            lemma_same_members(a, b, b[j2]);
            assert(b.contains(b[j2]));
            let i2 = choose|i2: int| 0 <= i2 < a.len() && a[i2] == b[j2];
            lemma_place_is_taken_once(a, i, i2);
        } else {
            if exists|j: int| 0 <= j < b.len() && #[trigger] b[j] is DataRaw {
                let j = choose|j: int| 0 <= j < b.len() && #[trigger] b[j] is DataRaw;
                lemma_same_members(a, b, b[j]);
                assert(b.contains(b[j]));
                let i = choose|i: int| 0 <= i < a.len() && a[i] == b[j];
                assert(a[i] is DataRaw);
            }
        }
    }
}

/// The pair at index `i` shows in the map with its value, unless a later pair has the same key.
pub proof fn lemma_last_pair_wins(pairs: Pairs, i: int)
    requires
        0 <= i < pairs.len(),
        forall|j: int| i < j < pairs.len() ==> (#[trigger] pairs[j]).0 != pairs[i].0,
    ensures
        collect(pairs).contains_key(pairs[i].0),
        collect(pairs)[pairs[i].0] == pairs[i].1,
    decreases pairs.len(),
{
    if i < pairs.len() - 1 {
        let front = pairs.drop_last();
        assert(front[i] == pairs[i]);
        assert forall|j: int| i < j < front.len() implies (#[trigger] front[j]).0
            != front[i].0 by {
            assert(front[j] == pairs[j]);
        }
        lemma_last_pair_wins(front, i);
        assert(pairs[pairs.len() - 1].0 != pairs[i].0);
    }
}

/// Whether `s` parses as an invocation of `url` with the options `options`.
pub open spec fn is_invocation(s: Seq<char>, url: Seq<char>, options: Seq<OptionView>) -> bool {
    match spec_command(s) {
        Ok((t, u)) => u == url && match spec_option_list(t, Seq::empty()) {
            Ok((_, o)) => o == options,
            Err(_) => false,
        },
        Err(_) => false,
    }
}

/// The record of an invocation that parses is its url with its options folded in.
pub proof fn lemma_record_of_invocation(s: Seq<char>, url: Seq<char>, options: Seq<OptionView>)
    requires
        is_invocation(s, url, options),
    ensures
        match spec_text_curl(s) {
            Ok((_, record)) => record == CurlView::build(url, options),
            Err(_) => false,
        },
{
}

/// Of the headers of one name in an invocation, and of its flags of one
/// name, the record holds the value of the last; of its cookie headers it
/// holds the cookies of the last, and of its bodies the last.
pub proof fn lemma_later_occurrence_wins(
    s: Seq<char>,
    url: Seq<char>,
    options: Seq<OptionView>,
    i: int,
)
    requires
        is_invocation(s, url, options),
        0 <= i < options.len(),
        forall|j: int| i < j < options.len() ==> !same_place(options[i], #[trigger] options[j]),
    ensures
        match spec_text_curl(s) {
            Ok((_, record)) => match options[i] {
                OptionView::Cookies(cookies) => record.cookies == cookies,
                OptionView::Header(name, value) => record.headers.contains_key(name)
                    && record.headers[name] == value,
                OptionView::DataRaw(body) => record.body == body,
                OptionView::Flag(name, argument) => record.flags.contains_key(name)
                    && record.flags[name] == flag_text(argument),
            },
            Err(_) => false,
        },
{
    match options[i] {
        OptionView::Cookies(_) => {
            assert forall|j: int| i < j < options.len() implies !(#[trigger] options[j]
                is Cookies) by {
                assert(!same_place(options[i], options[j]));
            }
            lemma_last_cookies_win(url, options, i);
        },
        OptionView::Header(_, _) => {
            lemma_last_header_wins(url, options, i);
        },
        OptionView::DataRaw(_) => {
            assert forall|j: int| i < j < options.len() implies !(#[trigger] options[j]
                is DataRaw) by {
                assert(!same_place(options[i], options[j]));
            }
            lemma_last_body_wins(url, options, i);
        },
        OptionView::Flag(_, _) => {
            lemma_last_flag_wins(url, options, i);
        },
    }
}

/// Of the cookies of one name in a cookie header, the map holds the value of the last.
pub proof fn lemma_later_cookie_wins(s: Seq<char>, rest: Seq<char>, pairs: Pairs, i: int)
    requires
        spec_cookie_list(s, Pairs::empty()) == done(rest, pairs),
        0 <= i < pairs.len(),
        forall|j: int| i < j < pairs.len() ==> (#[trigger] pairs[j]).0 != pairs[i].0,
    ensures
        match spec_cookie_pairs(s) {
            Ok((_, cookies)) => cookies.contains_key(pairs[i].0) && cookies[pairs[i].0]
                == pairs[i].1,
            Err(_) => false,
        },
{
    lemma_last_pair_wins(pairs, i);
}

/// Two invocations of one url whose options differ in their order alone
/// have the same record, where no two of the options go into the same place.
pub proof fn lemma_order_of_options_in_text(
    s1: Seq<char>,
    s2: Seq<char>,
    url: Seq<char>,
    options1: Seq<OptionView>,
    options2: Seq<OptionView>,
)
    requires
        is_invocation(s1, url, options1),
        is_invocation(s2, url, options2),
        options1.to_multiset() == options2.to_multiset(),
        distinct_places(options1),
    ensures
        match (spec_text_curl(s1), spec_text_curl(s2)) {
            (Ok((_, record1)), Ok((_, record2))) => record1 == record2,
            _ => false,
        },
{
    lemma_order_does_not_matter(url, options1, options2);
}

/// Parsing is a function of the text: two parses of the same text end in the
/// same way, with equal records, equal text left over, or equal failures.
pub proof fn lemma_parsing_again_gives_the_same<'a, 'b>(
    first: &'a str,
    second: &'b str,
    r1: Result<(&'a str, Curl<'a>), ParseError<'a>>,
    r2: Result<(&'b str, Curl<'b>), ParseError<'b>>,
)
    requires
        first@ == second@,
        outcome_of(r1) == spec_text_curl(first@),
        outcome_of(r2) == spec_text_curl(second@),
    ensures
        outcome_of(r1) == outcome_of(r2),
        match (r1, r2) {
            (Ok((rest1, record1)), Ok((rest2, record2))) => rest1@ == rest2@ && record1@
                == record2@,
            (Err(e1), Err(e2)) => e1@ == e2@,
            _ => false,
        },
{
}

} // verus!
