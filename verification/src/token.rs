//! Token recognizers: runs of characters of one class, literal tags, and
//! single characters, each cut from the front of a string slice.
use crate::encoding::{char_at, char_width, lemma_decode_step, lemma_next_boundary, tail_from};
use vstd::prelude::*;
use vstd::string::*;
use vstd::utf8::*;

verus! {

/// The classes of characters that the grammar reads in runs.
#[derive(Clone, Copy, Debug, PartialEq, Eq)]
pub enum CharClass {
    /// ASCII letters, ASCII digits, `-` and `_`.
    Key,
    /// Space, tab, carriage return and line feed.
    Space,
    /// Every character but the single quote.
    Unquoted,
    /// Every character but the single quote and the semicolon.
    CookieValue,
}

/// Whether `c` may occur in a key.
pub open spec fn is_key_char(c: char) -> bool {
    ('a' <= c && c <= 'z') || ('A' <= c && c <= 'Z') || ('0' <= c && c <= '9') || c == '-' || c
        == '_'
}

/// Whether `c` is one of the four whitespace characters.
pub open spec fn is_space_char(c: char) -> bool {
    c == ' ' || c == '\t' || c == '\r' || c == '\n'
}

impl CharClass {
    /// Whether `c` belongs to the class.
    pub open spec fn holds(self, c: char) -> bool {
        match self {
            CharClass::Key => is_key_char(c),
            CharClass::Space => is_space_char(c),
            CharClass::Unquoted => c != '\'',
            CharClass::CookieValue => c != '\'' && c != ';',
        }
    }

    /// Decides membership for the ASCII character with code `x`.
    fn holds_ascii(self, x: u8) -> (r: bool)
        requires
            x < 0x80,
        ensures
            r == self.holds(x as char),
    {
        match self {
            CharClass::Key => (0x61 <= x && x <= 0x7a) || (0x41 <= x && x <= 0x5a) || (0x30 <= x
                && x <= 0x39) || x == 0x2d || x == 0x5f,
            CharClass::Space => x == 0x20 || x == 0x09 || x == 0x0d || x == 0x0a,
            CharClass::Unquoted => x != 0x27,
            CharClass::CookieValue => x != 0x27 && x != 0x3b,
        }
    }

    /// Decides membership for every character beyond the ASCII range at once.
    fn holds_beyond_ascii(self) -> (r: bool)
        ensures
            forall|c: char| c as u32 >= 0x80 ==> self.holds(c) == r,
    {
        match self {
            CharClass::Key => false,
            CharClass::Space => false,
            CharClass::Unquoted => true,
            CharClass::CookieValue => true,
        }
    }
}

/// The length of the longest leading run of `s` whose characters all belong to `class`.
pub open spec fn run_len(s: Seq<char>, class: CharClass) -> nat
    decreases s.len(),
{
    if s.len() > 0 && class.holds(s[0]) {
        1 + run_len(s.drop_first(), class)
    } else {
        0
    }
}

/// A run is pinned by its two ends: every character before `n` belongs to the
/// class, and the character at `n`, if there is one, does not.
pub proof fn lemma_run_len_is(s: Seq<char>, class: CharClass, n: int)
    requires
        0 <= n <= s.len(),
        forall|j: int| 0 <= j < n ==> class.holds(#[trigger] s[j]),
        n < s.len() ==> !class.holds(s[n]),
    ensures
        run_len(s, class) == n,
    decreases n,
{
    if n > 0 {
        let t = s.drop_first();
        assert forall|j: int| 0 <= j < n - 1 implies class.holds(#[trigger] t[j]) by {
            assert(t[j] == s[j + 1]);
        }
        lemma_run_len_is(t, class, n - 1);
    }
}

/// The two ends of a run, read off its length.
pub proof fn lemma_run_len_ends(s: Seq<char>, class: CharClass)
    ensures
        run_len(s, class) <= s.len(),
        forall|j: int| 0 <= j < run_len(s, class) ==> class.holds(#[trigger] s[j]),
        run_len(s, class) < s.len() ==> !class.holds(s[run_len(s, class) as int]),
    decreases s.len(),
{
    if s.len() > 0 && class.holds(s[0]) {
        let t = s.drop_first();
        lemma_run_len_ends(t, class);
        assert forall|j: int| 0 <= j < run_len(s, class) implies class.holds(#[trigger] s[j]) by {
            if j > 0 {
                assert(s[j] == t[j - 1]);
            }
        }
        if run_len(s, class) < s.len() {
            assert(s[run_len(s, class) as int] == t[run_len(t, class) as int]);
        }
    }
}

/// Cuts `input` at the boundary `i`, in front of which stand the characters `pre`.
fn cut<'a>(input: &'a str, i: usize, Ghost(pre): Ghost<Seq<char>>) -> (r: (&'a str, &'a str))
    requires
        is_char_boundary(input.spec_bytes(), i as int),
        i <= input.spec_bytes().len(),
        input@ == pre + decode_utf8(tail_from(input.spec_bytes(), i as int)),
    ensures
        r.0@ == pre,
        r.0@ == input@.take(pre.len() as int),
        r.1@ == input@.skip(pre.len() as int),
        r.1@ == decode_utf8(tail_from(input.spec_bytes(), i as int)),
{
    let r = input.split_at(i);
    proof {
        let b = input.spec_bytes();
        encode_utf8_valid_utf8(input@);
        encode_utf8_decode_utf8(input@);
        encode_utf8_decode_utf8(r.0@);
        encode_utf8_decode_utf8(r.1@);
        decode_utf8_split(b, i as int);
        assert(r.1.spec_bytes() == tail_from(b, i as int));
        assert(r.0.spec_bytes() == b.subrange(0, i as int));
        assert(input@ == r.0@ + r.1@);
        assert(r.0@.len() == pre.len());
        assert(r.0@ =~= pre) by {
            assert forall|j: int| 0 <= j < pre.len() implies r.0@[j] == pre[j] by {
                assert((r.0@ + r.1@)[j] == (pre + r.1@)[j]);
            }
        }
        assert(r.0@ =~= input@.take(pre.len() as int));
        assert(r.1@ =~= input@.skip(pre.len() as int));
    }
    r
}

/// Splits `input` behind its longest leading run of characters of `class`:
/// the run comes first, then what follows it. The run may be empty.
pub fn split_while<'a>(input: &'a str, class: CharClass) -> (r: (&'a str, &'a str))
    ensures
        r.0@ == input@.take(run_len(input@, class) as int),
        r.1@ == input@.skip(run_len(input@, class) as int),
        run_len(input@, class) <= input@.len(),
{
    let b = input.as_bytes();
    let beyond = class.holds_beyond_ascii();
    let mut i: usize = 0;
    let ghost mut pre: Seq<char> = Seq::empty();
    proof {
        encode_utf8_valid_utf8(input@);
        encode_utf8_decode_utf8(input@);
        is_char_boundary_start_end_of_seq(b@);
        assert(tail_from(b@, 0) =~= b@);
        assert(input@ =~= pre + decode_utf8(tail_from(b@, 0)));
    }
    while i < b.len()
        invariant
            b@ == input.spec_bytes(),
            valid_utf8(b@),
            i <= b.len(),
            is_char_boundary(b@, i as int),
            input@ == pre + decode_utf8(tail_from(b@, i as int)),
            forall|j: int| 0 <= j < pre.len() ==> class.holds(#[trigger] pre[j]),
            forall|c: char| c as u32 >= 0x80 ==> class.holds(c) == beyond,
        ensures
            i < b.len() ==> !class.holds(char_at(b@, i as int)),
        decreases b.len() - i,
    {
        let x = b[i];
        proof {
            lemma_decode_step(b@, i as int);
        }
        let inside = if x < 0x80 {
            class.holds_ascii(x)
        } else {
            beyond
        };
        if !inside {
            break ;
        }
        let w = char_width(b, i);
        proof {
            let c = char_at(b@, i as int);
            assert(pre + (seq![c] + decode_utf8(tail_from(b@, i + w))) =~= pre.push(c)
                + decode_utf8(tail_from(b@, i + w)));
            pre = pre.push(c);
        }
        i = i + w;
    }
    let r = cut(input, i, Ghost(pre));
    proof {
        if i < b.len() {
            lemma_decode_step(b@, i as int);
            assert(r.1@[0] == char_at(b@, i as int));
            assert(input@[pre.len() as int] == r.1@[0]);
        } else {
            assert(tail_from(b@, i as int) =~= Seq::<u8>::empty());
            assert(r.1@.len() == 0);
        }
        assert(input@.len() == pre.len() + r.1@.len());
        assert forall|j: int| 0 <= j < pre.len() implies class.holds(#[trigger] input@[j]) by {
            assert(input@[j] == pre[j]);
        }
        lemma_run_len_is(input@, class, pre.len() as int);
    }
    r
}

/// The lower-case form of an ASCII capital letter; any other character itself.
pub open spec fn fold_case(c: char) -> char {
    if 'A' <= c && c <= 'Z' {
        ((c as u8) + 32) as char
    } else {
        c
    }
}

/// Whether `a` matches `b`, either exactly or without regard to ASCII case.
pub open spec fn same_char(a: char, b: char, ignore_case: bool) -> bool {
    if ignore_case {
        fold_case(a) == fold_case(b)
    } else {
        a == b
    }
}

/// Whether `s` begins with the characters of `t`.
pub open spec fn starts_with(s: Seq<char>, t: Seq<char>, ignore_case: bool) -> bool {
    t.len() <= s.len() && forall|k: int|
        0 <= k < t.len() ==> same_char(s[k], #[trigger] t[k], ignore_case)
}

/// What follows the literal `t` at the front of `s`, if `s` begins with it.
pub open spec fn strip(s: Seq<char>, t: Seq<char>, ignore_case: bool) -> Option<Seq<char>> {
    if starts_with(s, t, ignore_case) {
        Some(s.skip(t.len() as int))
    } else {
        None
    }
}

/// The lower-case form of the code of an ASCII capital letter; any other byte itself.
fn fold_byte(x: u8) -> (r: u8)
    ensures
        x < 0x80 ==> r < 0x80 && r as char == fold_case(x as char),
        x >= 0x80 ==> r == x,
{
    if 0x41 <= x && x <= 0x5a {
        x + 32
    } else {
        x
    }
}

/// Removes the literal `tag` from the front of `input` and returns what
/// follows it, or `None` where `input` does not begin with `tag`. With
/// `ignore_case`, ASCII letters match in either case.
pub fn strip_tag<'a>(input: &'a str, tag: &str, ignore_case: bool) -> (r: Option<&'a str>)
    requires
        is_ascii(tag),
    ensures
        match r {
            Some(rest) => strip(input@, tag@, ignore_case) == Some(rest@),
            None => strip(input@, tag@, ignore_case) is None,
        },
{
    let b = input.as_bytes();
    let t = tag.as_bytes();
    let mut j: usize = 0;
    let ghost mut pre: Seq<char> = Seq::empty();
    proof {
        encode_utf8_valid_utf8(input@);
        encode_utf8_decode_utf8(input@);
        is_char_boundary_start_end_of_seq(b@);
        is_ascii_spec_bytes(tag);
        assert(tail_from(b@, 0) =~= b@);
        assert(input@ =~= pre + decode_utf8(tail_from(b@, 0)));
    }
    while j < t.len()
        invariant
            b@ == input.spec_bytes(),
            valid_utf8(b@),
            is_ascii_chars(tag@),
            t@.len() == tag@.len(),
            forall|k: int| 0 <= k < t@.len() ==> t@[k] == tag@[k] as u8,
            j <= t.len(),
            j <= b.len(),
            pre.len() == j,
            is_char_boundary(b@, j as int),
            input@ == pre + decode_utf8(tail_from(b@, j as int)),
            forall|k: int| 0 <= k < j ==> same_char(pre[k], #[trigger] tag@[k], ignore_case),
        decreases t.len() - j,
    {
        if j >= b.len() {
            proof {
                assert(tail_from(b@, j as int) =~= Seq::<u8>::empty());
                assert(input@.len() == j);
            }
            return None;
        }
        let x = b[j];
        let y = t[j];
        proof {
            lemma_decode_step(b@, j as int);
        }
        let c: Ghost<char> = Ghost(char_at(b@, j as int));
        assert(input@[j as int] == c@);
        assert(y == tag@[j as int] as u8 && y < 0x80);
        let same = if ignore_case {
            fold_byte(x) == fold_byte(y)
        } else {
            x == y
        };
        if !same {
            assert(!same_char(input@[j as int], tag@[j as int], ignore_case));
            return None;
        }
        proof {
            assert(x < 0x80);
            assert(same_char(c@, tag@[j as int], ignore_case));
            assert(pre + (seq![c@] + decode_utf8(tail_from(b@, j + 1))) =~= pre.push(c@)
                + decode_utf8(tail_from(b@, j + 1)));
            lemma_next_boundary(b@, j as int);
            pre = pre.push(c@);
        }
        j = j + 1;
    }
    let r = cut(input, j, Ghost(pre));
    proof {
        assert(input@.len() == pre.len() + r.1@.len());
        assert forall|k: int| 0 <= k < tag@.len() implies same_char(
            input@[k],
            #[trigger] tag@[k],
            ignore_case,
        ) by {
            assert(input@[k] == pre[k]);
        }
    }
    Some(r.1)
}

/// Splits `input` behind its first character, or returns `None` where it is empty.
pub fn split_first<'a>(input: &'a str) -> (r: Option<(&'a str, &'a str)>)
    ensures
        match r {
            Some((first, rest)) => input@.len() > 0 && first@ == input@.take(1) && rest@
                == input@.skip(1),
            None => input@.len() == 0,
        },
{
    let b = input.as_bytes();
    proof {
        encode_utf8_valid_utf8(input@);
        encode_utf8_decode_utf8(input@);
        is_char_boundary_start_end_of_seq(b@);
        assert(tail_from(b@, 0) =~= b@);
    }
    if b.len() == 0 {
        return None;
    }
    let w = char_width(b, 0);
    proof {
        lemma_decode_step(b@, 0);
    }
    let ghost first: Seq<char> = Seq::empty().push(char_at(b@, 0));
    proof {
        assert(first =~= seq![char_at(b@, 0)]);
    }
    let r = cut(input, w, Ghost(first));
    Some(r)
}

/// Whether two string slices hold the same text.
pub fn same_text(a: &str, b: &str) -> (r: bool)
    ensures
        r == (a@ == b@),
{
    let x = a.as_bytes();
    let y = b.as_bytes();
    proof {
        encode_utf8_decode_utf8(a@);
        encode_utf8_decode_utf8(b@);
    }
    if x.len() != y.len() {
        return false;
    }
    let mut i: usize = 0;
    while i < x.len()
        invariant
            x@ == a.spec_bytes(),
            y@ == b.spec_bytes(),
            x@.len() == y@.len(),
            i <= x.len(),
            forall|k: int| 0 <= k < i ==> x@[k] == y@[k],
        decreases x.len() - i,
    {
        if x[i] != y[i] {
            return false;
        }
        i = i + 1;
    }
    proof {
        assert(x@ =~= y@);
    }
    true
}

} // verus!
