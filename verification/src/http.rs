//! The request parser: a single forward pass that turns fully-substituted
//! template text into a structured request (verb, url, headers, body).

use vstd::prelude::*;
use crate::headers::HeaderCollection;

verus! {

/// Failure of request parsing.
#[derive(Clone, Copy, Debug, PartialEq, Eq, Structural)]
pub enum ParseError {
    /// The first non-blank line did not hold exactly two
    /// whitespace-separated tokens.
    MalformedStatusLine,
    /// A header line held no `:` separator.
    MalformedHeader,
}

/// The mathematical shape of a parsed request.
#[verifier::ext_equal]
pub struct RequestModel {
    pub verb: Seq<char>,
    pub url: Seq<char>,
    pub headers: Seq<(Seq<char>, Seq<char>)>,
    pub body: Option<Seq<char>>,
}

/// True of the characters that separate tokens of the status line and
/// pad header values.
pub open spec fn is_space(c: char) -> bool {
    c == ' ' || c == '\t'
}

/// Executable test for [`is_space`].
pub fn space_char(c: char) -> (r: bool)
    ensures
        r == is_space(c),
{
    c == ' ' || c == '\t'
}

/// The index of the first `'\n'` of `t` at or after `i`, or the length.
pub open spec fn line_end(t: Seq<char>, i: int) -> int
    decreases t.len() - i,
{
    if 0 <= i < t.len() && t[i] != '\n' {
        line_end(t, i + 1)
    } else {
        i
    }
}

pub proof fn lemma_line_end(t: Seq<char>, i: int)
    requires
        0 <= i <= t.len(),
    ensures
        i <= line_end(t, i) <= t.len(),
    decreases t.len() - i,
{
    if i < t.len() && t[i] != '\n' {
        lemma_line_end(t, i + 1);
    }
}

/// The index of the first character after the leading blank lines.
pub open spec fn skip_blank_lines(t: Seq<char>, i: int) -> int
    decreases t.len() - i,
{
    if 0 <= i < t.len() && t[i] == '\n' {
        skip_blank_lines(t, i + 1)
    } else {
        i
    }
}

/// The index of the first non-space character of `s` at or after `i`,
/// or the length.
pub open spec fn skip_spaces(s: Seq<char>, i: int) -> int
    decreases s.len() - i,
{
    if 0 <= i < s.len() && is_space(s[i]) {
        skip_spaces(s, i + 1)
    } else {
        i
    }
}

/// The index just past the token of `s` that starts at `i`.
pub open spec fn token_end(s: Seq<char>, i: int) -> int
    decreases s.len() - i,
{
    if 0 <= i < s.len() && !is_space(s[i]) {
        token_end(s, i + 1)
    } else {
        i
    }
}

/// The index of the first `':'` of `s` at or after `i`, if any.
pub open spec fn find_colon(s: Seq<char>, i: int) -> Option<int>
    decreases s.len() - i,
{
    if !(0 <= i < s.len()) {
        None
    } else if s[i] == ':' {
        Some(i)
    } else {
        find_colon(s, i + 1)
    }
}

/// Where trimming spaces off the end of `s.subrange(0, j)` would stop.
pub open spec fn trim_end_idx(s: Seq<char>, j: int) -> int
    decreases j,
{
    if 0 < j <= s.len() && is_space(s[j - 1]) {
        trim_end_idx(s, j - 1)
    } else {
        j
    }
}

/// `s` with leading and trailing spaces removed.
pub open spec fn trim(s: Seq<char>) -> Seq<char> {
    let a = skip_spaces(s, 0);
    if a >= s.len() {
        Seq::empty()
    } else {
        s.subrange(a, trim_end_idx(s, s.len() as int))
    }
}

pub proof fn lemma_line_end_chars(t: Seq<char>, i: int)
    requires
        0 <= i <= t.len(),
    ensures
        forall|k: int| i <= k < line_end(t, i) ==> t[k] != '\n',
    decreases t.len() - i,
{
    if i < t.len() && t[i] != '\n' {
        lemma_line_end(t, i);
        lemma_line_end_chars(t, i + 1);
    }
}

pub proof fn lemma_skip_blank_lines_bounds(t: Seq<char>, i: int)
    requires
        0 <= i <= t.len(),
    ensures
        i <= skip_blank_lines(t, i) <= t.len(),
    decreases t.len() - i,
{
    if i < t.len() && t[i] == '\n' {
        lemma_skip_blank_lines_bounds(t, i + 1);
    }
}

pub proof fn lemma_skip_spaces_bounds(s: Seq<char>, i: int)
    requires
        0 <= i <= s.len(),
    ensures
        i <= skip_spaces(s, i) <= s.len(),
    decreases s.len() - i,
{
    if i < s.len() && is_space(s[i]) {
        lemma_skip_spaces_bounds(s, i + 1);
    }
}

pub proof fn lemma_token_end_chars(s: Seq<char>, i: int)
    requires
        0 <= i <= s.len(),
    ensures
        i <= token_end(s, i) <= s.len(),
        forall|k: int| i <= k < token_end(s, i) ==> !is_space(s[k]),
    decreases s.len() - i,
{
    if i < s.len() && !is_space(s[i]) {
        lemma_token_end_chars(s, i + 1);
    }
}

pub proof fn lemma_skip_spaces_stop(s: Seq<char>, i: int)
    requires
        0 <= i <= s.len(),
    ensures
        skip_spaces(s, i) < s.len() ==> !is_space(s[skip_spaces(s, i)]),
    decreases s.len() - i,
{
    if i < s.len() && is_space(s[i]) {
        lemma_skip_spaces_stop(s, i + 1);
    }
}

pub proof fn lemma_trim_end_idx(s: Seq<char>, j: int, a: int)
    requires
        0 <= a < j <= s.len(),
        !is_space(s[a]),
    ensures
        a < trim_end_idx(s, j) <= j,
    decreases j,
{
    if 0 < j && is_space(s[j - 1]) {
        lemma_trim_end_idx(s, j - 1, a);
    }
}

/// The status line split into exactly two whitespace-separated tokens,
/// or nothing when it holds fewer or more.
pub open spec fn split_two(line: Seq<char>) -> Option<(Seq<char>, Seq<char>)> {
    let a0 = skip_spaces(line, 0);
    let a1 = token_end(line, a0);
    let b0 = skip_spaces(line, a1);
    let b1 = token_end(line, b0);
    if a1 > a0 && b1 > b0 && skip_spaces(line, b1) == line.len() {
        Some((line.subrange(a0, a1), line.subrange(b0, b1)))
    } else {
        None
    }
}

/// The header-and-body phase of parsing, starting at index `i`: header
/// lines are collected in order until a blank line (everything after it,
/// if non-empty, is the body) or the end of input (no body).
pub open spec fn parse_headers_from(
    t: Seq<char>,
    i: int,
    verb: Seq<char>,
    url: Seq<char>,
    acc: Seq<(Seq<char>, Seq<char>)>,
) -> Result<RequestModel, ParseError>
    decreases t.len() - i,
    via parse_headers_from_dec
{
    if !(0 <= i < t.len()) {
        Ok(RequestModel { verb, url, headers: acc, body: None })
    } else if t[i] == '\n' {
        let rest = t.subrange(i + 1, t.len() as int);
        Ok(
            RequestModel {
                verb,
                url,
                headers: acc,
                body: if rest.len() > 0 {
                    Some(rest)
                } else {
                    None
                },
            },
        )
    } else {
        let e = line_end(t, i);
        let line = t.subrange(i, e);
        match find_colon(line, 0) {
            None => Err(ParseError::MalformedHeader),
            Some(k) => parse_headers_from(
                t,
                if e < t.len() {
                    e + 1
                } else {
                    e
                },
                verb,
                url,
                acc.push((line.subrange(0, k), trim(line.subrange(k + 1, line.len() as int)))),
            ),
        }
    }
}

#[via_fn]
proof fn parse_headers_from_dec(
    t: Seq<char>,
    i: int,
    verb: Seq<char>,
    url: Seq<char>,
    acc: Seq<(Seq<char>, Seq<char>)>,
) {
    if 0 <= i < t.len() && t[i] != '\n' {
        lemma_line_end(t, i);
    }
}

/// What parsing yields on `t`: leading blank lines are skipped, the first
/// non-blank line must split into verb and url, then headers follow until
/// a blank line or the end of input.
pub open spec fn parse_spec(t: Seq<char>) -> Result<RequestModel, ParseError> {
    let i = skip_blank_lines(t, 0);
    if i >= t.len() {
        Err(ParseError::MalformedStatusLine)
    } else {
        let e = line_end(t, i);
        match split_two(t.subrange(i, e)) {
            None => Err(ParseError::MalformedStatusLine),
            Some(vu) => parse_headers_from(
                t,
                if e < t.len() {
                    e + 1
                } else {
                    e
                },
                vu.0,
                vu.1,
                Seq::empty(),
            ),
        }
    }
}

/// A structured request: a verb and a url, the headers in order, and an
/// optional verbatim body.
#[derive(Debug)]
pub struct HttpRequest {
    verb: String,
    url: String,
    headers: HeaderCollection,
    body: Option<String>,
}

impl View for HttpRequest {
    type V = RequestModel;

    closed spec fn view(&self) -> RequestModel {
        RequestModel {
            verb: self.verb@,
            url: self.url@,
            headers: self.headers@,
            body: match self.body {
                Some(b) => Some(b@),
                None => None,
            },
        }
    }
}

impl HttpRequest {
    /// The request verb, the first token of the status line.
    pub fn verb(&self) -> (r: &String)
        ensures
            r@ == self@.verb,
    {
        &self.verb
    }

    /// The request url, the second token of the status line.
    pub fn url(&self) -> (r: &String)
        ensures
            r@ == self@.url,
    {
        &self.url
    }

    /// The headers, in the order the text gave them.
    pub fn headers(&self) -> (r: &HeaderCollection)
        ensures
            r@ == self@.headers,
    {
        &self.headers
    }

    /// The body, present exactly when a blank line ended the headers and
    /// text followed it.
    pub fn body(&self) -> (r: &Option<String>)
        ensures
            match r {
                Some(b) => self@.body == Some(b@),
                None => self@.body is None,
            },
    {
        &self.body
    }
}

/// The header-and-body phase returns the verb and url it was handed.
proof fn lemma_parse_headers_keeps_status(
    t: Seq<char>,
    i: int,
    verb: Seq<char>,
    url: Seq<char>,
    acc: Seq<(Seq<char>, Seq<char>)>,
)
    ensures
        parse_headers_from(t, i, verb, url, acc) is Ok ==> parse_headers_from(
            t,
            i,
            verb,
            url,
            acc,
        )->Ok_0.verb == verb && parse_headers_from(t, i, verb, url, acc)->Ok_0.url == url,
    decreases t.len() - i,
{
    if 0 <= i < t.len() && t[i] != '\n' {
        let e = line_end(t, i);
        lemma_line_end(t, i);
        let line = t.subrange(i, e);
        match find_colon(line, 0) {
            None => {},
            Some(k) => {
                lemma_parse_headers_keeps_status(
                    t,
                    if e < t.len() {
                        e + 1
                    } else {
                        e
                    },
                    verb,
                    url,
                    acc.push((line.subrange(0, k), trim(line.subrange(k + 1, line.len() as int)))),
                );
            },
        }
    }
}

/// The status-line invariant of the data model: a successfully parsed
/// request has a non-empty verb and a non-empty url, and neither holds
/// whitespace.
pub proof fn lemma_parse_status_tokens(t: Seq<char>)
    requires
        parse_spec(t) is Ok,
    ensures
        parse_spec(t)->Ok_0.verb.len() > 0,
        parse_spec(t)->Ok_0.url.len() > 0,
        forall|k: int|
            0 <= k < parse_spec(t)->Ok_0.verb.len() ==> !is_space(#[trigger] parse_spec(
                t,
            )->Ok_0.verb[k]) && parse_spec(t)->Ok_0.verb[k] != '\n',
        forall|k: int|
            0 <= k < parse_spec(t)->Ok_0.url.len() ==> !is_space(#[trigger] parse_spec(
                t,
            )->Ok_0.url[k]) && parse_spec(t)->Ok_0.url[k] != '\n',
{
    lemma_skip_blank_lines_bounds(t, 0);
    let i = skip_blank_lines(t, 0);
    let e = line_end(t, i);
    lemma_line_end(t, i);
    lemma_line_end_chars(t, i);
    let line = t.subrange(i, e);
    let a0 = skip_spaces(line, 0);
    lemma_skip_spaces_bounds(line, 0);
    let a1 = token_end(line, a0);
    lemma_token_end_chars(line, a0);
    let b0 = skip_spaces(line, a1);
    lemma_skip_spaces_bounds(line, a1);
    let b1 = token_end(line, b0);
    lemma_token_end_chars(line, b0);
    let vu = split_two(line)->Some_0;
    lemma_parse_headers_keeps_status(
        t,
        if e < t.len() {
            e + 1
        } else {
            e
        },
        vu.0,
        vu.1,
        Seq::empty(),
    );
    assert(forall|k: int| 0 <= k < line.len() ==> line[k] == t[i + k] && line[k] != '\n');
    assert(parse_spec(t)->Ok_0.verb =~= line.subrange(a0, a1));
    assert(parse_spec(t)->Ok_0.url =~= line.subrange(b0, b1));
}

proof fn lemma_parse_headers_body_nonempty(
    t: Seq<char>,
    i: int,
    verb: Seq<char>,
    url: Seq<char>,
    acc: Seq<(Seq<char>, Seq<char>)>,
)
    ensures
        parse_headers_from(t, i, verb, url, acc) is Ok && parse_headers_from(
            t,
            i,
            verb,
            url,
            acc,
        )->Ok_0.body is Some ==> parse_headers_from(t, i, verb, url, acc)->Ok_0.body->0.len() > 0,
    decreases t.len() - i,
{
    if 0 <= i < t.len() && t[i] != '\n' {
        let e = line_end(t, i);
        lemma_line_end(t, i);
        let line = t.subrange(i, e);
        match find_colon(line, 0) {
            None => {},
            Some(k) => {
                lemma_parse_headers_body_nonempty(
                    t,
                    if e < t.len() {
                        e + 1
                    } else {
                        e
                    },
                    verb,
                    url,
                    acc.push((line.subrange(0, k), trim(line.subrange(k + 1, line.len() as int)))),
                );
            },
        }
    }
}

/// Presence and emptiness of the body are distinct: when the parsed body
/// is present it is non-empty, so a blank line followed by nothing gives
/// no body at all.
pub proof fn lemma_parse_body_nonempty(t: Seq<char>)
    requires
        parse_spec(t) is Ok,
        parse_spec(t)->Ok_0.body is Some,
    ensures
        parse_spec(t)->Ok_0.body->0.len() > 0,
{
    lemma_skip_blank_lines_bounds(t, 0);
    let i = skip_blank_lines(t, 0);
    let e = line_end(t, i);
    lemma_line_end(t, i);
    let vu = split_two(t.subrange(i, e))->Some_0;
    lemma_parse_headers_body_nonempty(
        t,
        if e < t.len() {
            e + 1
        } else {
            e
        },
        vu.0,
        vu.1,
        Seq::empty(),
    );
}

/// The index of the first `'\n'` of `t` at or after `i`, or the length.
fn line_end_exec(t: &str, i: usize) -> (r: usize)
    requires
        i <= t@.len(),
    ensures
        r as int == line_end(t@, i as int),
        i <= r <= t@.len(),
{
    let n = t.unicode_len();
    let mut k: usize = i;
    while k < n
        invariant
            i <= k <= n,
            n == t@.len(),
            line_end(t@, i as int) == line_end(t@, k as int),
        decreases n - k,
    {
        if t.get_char(k) == '\n' {
            return k;
        }
        k = k + 1;
    }
    k
}

/// The index of the first non-space character of `s` at or after `i`.
fn skip_spaces_exec(s: &str, i: usize) -> (r: usize)
    requires
        i <= s@.len(),
    ensures
        r as int == skip_spaces(s@, i as int),
        i <= r <= s@.len(),
{
    let n = s.unicode_len();
    let mut k: usize = i;
    while k < n
        invariant
            i <= k <= n,
            n == s@.len(),
            skip_spaces(s@, i as int) == skip_spaces(s@, k as int),
        decreases n - k,
    {
        if !space_char(s.get_char(k)) {
            return k;
        }
        k = k + 1;
    }
    k
}

/// The index just past the token of `s` that starts at `i`.
fn token_end_exec(s: &str, i: usize) -> (r: usize)
    requires
        i <= s@.len(),
    ensures
        r as int == token_end(s@, i as int),
        i <= r <= s@.len(),
{
    let n = s.unicode_len();
    let mut k: usize = i;
    while k < n
        invariant
            i <= k <= n,
            n == s@.len(),
            token_end(s@, i as int) == token_end(s@, k as int),
        decreases n - k,
    {
        if space_char(s.get_char(k)) {
            return k;
        }
        k = k + 1;
    }
    k
}

/// The position of the first `':'` of `s`, if any.
fn find_colon_exec(s: &str) -> (r: Option<usize>)
    ensures
        match r {
            Some(k) => find_colon(s@, 0) == Some(k as int) && k < s@.len(),
            None => find_colon(s@, 0) is None,
        },
{
    let n = s.unicode_len();
    let mut k: usize = 0;
    while k < n
        invariant
            k <= n,
            n == s@.len(),
            find_colon(s@, 0) == find_colon(s@, k as int),
        decreases n - k,
    {
        if s.get_char(k) == ':' {
            return Some(k);
        }
        k = k + 1;
    }
    None
}

/// `s` with leading and trailing spaces removed, as an owned string.
fn trim_exec(s: &str) -> (r: String)
    ensures
        r@ == trim(s@),
{
    let n = s.unicode_len();
    let a = skip_spaces_exec(s, 0);
    if a >= n {
        return String::new();
    }
    proof {
        lemma_skip_spaces_stop(s@, 0);
        lemma_trim_end_idx(s@, n as int, a as int);
    }
    let mut b: usize = n;
    while b > 0 && space_char(s.get_char(b - 1))
        invariant
            b <= n,
            n == s@.len(),
            trim_end_idx(s@, n as int) == trim_end_idx(s@, b as int),
        decreases b,
    {
        b = b - 1;
    }
    proof {
        assert(b as int == trim_end_idx(s@, n as int));
    }
    String::from_str(s.substring_char(a, b))
}

/// The status line split into exactly two tokens, or nothing.
fn split_two_exec(line: &str) -> (r: Option<(String, String)>)
    ensures
        match r {
            Some(vu) => split_two(line@) == Some((vu.0@, vu.1@)),
            None => split_two(line@) is None,
        },
{
    let n = line.unicode_len();
    let a0 = skip_spaces_exec(line, 0);
    let a1 = token_end_exec(line, a0);
    let b0 = skip_spaces_exec(line, a1);
    let b1 = token_end_exec(line, b0);
    let c = skip_spaces_exec(line, b1);
    if a1 > a0 && b1 > b0 && c == n {
        Some(
            (
                String::from_str(line.substring_char(a0, a1)),
                String::from_str(line.substring_char(b0, b1)),
            ),
        )
    } else {
        None
    }
}

/// Parses fully-substituted text into a structured request: the first
/// non-blank line must hold exactly a verb and a url, each following
/// line up to a blank line or the end of input must hold a `name: value`
/// header, and whatever follows the blank line is the body, verbatim.
pub fn parse(text: &str) -> (r: Result<HttpRequest, ParseError>)
    ensures
        match r {
            Ok(req) => parse_spec(text@) == Ok::<RequestModel, ParseError>(req@),
            Err(e) => parse_spec(text@) == Err::<RequestModel, ParseError>(e),
        },
{
    let n = text.unicode_len();
    let mut i: usize = 0;
    while i < n && text.get_char(i) == '\n'
        invariant
            i <= n,
            n == text@.len(),
            skip_blank_lines(text@, 0) == skip_blank_lines(text@, i as int),
        decreases n - i,
    {
        i = i + 1;
    }
    assert(i as int == skip_blank_lines(text@, 0));
    if i >= n {
        return Err(ParseError::MalformedStatusLine);
    }
    let e = line_end_exec(text, i);
    let status = text.substring_char(i, e);
    let (verb, url) = match split_two_exec(status) {
        Some(vu) => vu,
        None => {
            return Err(ParseError::MalformedStatusLine);
        },
    };
    let mut hdrs = HeaderCollection::new();
    let mut j: usize = if e < n {
        e + 1
    } else {
        e
    };
    proof {
        assert(parse_spec(text@) == parse_headers_from(
            text@,
            j as int,
            verb@,
            url@,
            Seq::<(Seq<char>, Seq<char>)>::empty(),
        ));
        assert(hdrs@ =~= Seq::<(Seq<char>, Seq<char>)>::empty());
    }
    loop
        invariant
            j <= n,
            n == text@.len(),
            parse_spec(text@) == parse_headers_from(text@, j as int, verb@, url@, hdrs@),
        decreases n - j,
    {
        if j >= n {
            let req = HttpRequest { verb, url, headers: hdrs, body: None };
            proof {
                assert(parse_spec(text@) == Ok::<RequestModel, ParseError>(req@));
            }
            return Ok(req);
        }
        if text.get_char(j) == '\n' {
            let body: Option<String> = if j + 1 < n {
                Some(String::from_str(text.substring_char(j + 1, n)))
            } else {
                None
            };
            let ghost rest = text@.subrange(j as int + 1, n as int);
            proof {
                assert(rest.len() > 0 <==> j + 1 < n);
            }
            let req = HttpRequest { verb, url, headers: hdrs, body };
            proof {
                assert(parse_spec(text@) == Ok::<RequestModel, ParseError>(req@));
            }
            return Ok(req);
        }
        let e2 = line_end_exec(text, j);
        let line = text.substring_char(j, e2);
        match find_colon_exec(line) {
            None => {
                return Err(ParseError::MalformedHeader);
            },
            Some(k) => {
                let name = String::from_str(line.substring_char(0, k));
                let value = trim_exec(line.substring_char(k + 1, line.unicode_len()));
                proof {
                    assert(line@.subrange(k as int + 1, line@.len() as int) == line@.subrange(
                        k as int + 1,
                        line@.len() as int,
                    ));
                }
                hdrs.insert(name, value);
                j = if e2 < n {
                    e2 + 1
                } else {
                    e2
                };
            },
        }
    }
}

} // verus!
