//! The formatter pipeline: an ordered, content-type-gated list of body
//! transforms. A transform that fails is a no-op: rendering a body never
//! aborts the request/response cycle.

use vstd::prelude::*;

verus! {

/// The closed set of body transforms.
#[derive(Clone, Copy, Debug, PartialEq, Eq, Structural)]
pub enum FormatterKind {
    /// Re-indents JSON, one element per line, two spaces per nesting level.
    JsonPretty,
}

/// A content-type-gated transform; rules are applied in list order.
#[derive(Clone, Copy, Debug)]
pub struct FormatterRule {
    pub kind: FormatterKind,
}

/// Failure of a single transform; always swallowed by the pipeline.
#[derive(Clone, Copy, Debug, PartialEq, Eq, Structural)]
pub enum FormatError {
    /// The body did not have the structure the transform expects.
    MalformedContent,
}

/// True when `sub` occurs in `s` starting at `k`.
pub open spec fn contains_at(s: Seq<char>, sub: Seq<char>, k: int) -> bool {
    0 <= k && k + sub.len() <= s.len() && s.subrange(k, k + sub.len()) == sub
}

/// True when `sub` occurs somewhere in `s`.
pub open spec fn contains_seq(s: Seq<char>, sub: Seq<char>) -> bool {
    exists|k: int| contains_at(s, sub, k)
}

/// Substring search.
pub fn str_contains(s: &str, sub: &str) -> (r: bool)
    ensures
        r == contains_seq(s@, sub@),
{
    let n = s.unicode_len();
    let m = sub.unicode_len();
    if m == 0 {
        proof {
            assert(s@.subrange(0, 0) =~= sub@);
            assert(contains_at(s@, sub@, 0));
        }
        return true;
    }
    if m > n {
        return false;
    }
    let mut k: usize = 0;
    while k <= n - m
        invariant
            0 < m <= n,
            n == s@.len(),
            m == sub@.len(),
            k <= n - m + 1,
            forall|k2: int| 0 <= k2 < k ==> !contains_at(s@, sub@, k2),
        decreases n - m - k + 1,
    {
        if crate::props::str_eq(s.substring_char(k, k + m), sub) {
            assert(contains_at(s@, sub@, k as int));
            return true;
        }
        k = k + 1;
    }
    proof {
        assert forall|k2: int| !contains_at(s@, sub@, k2) by {
            if 0 <= k2 && k2 + m <= n {
                assert(k2 < k);
            }
        }
    }
    false
}

/// The view of an optional content type.
pub open spec fn ct_view(ct: Option<&str>) -> Option<Seq<char>> {
    match ct {
        Some(c) => Some(c@),
        None => None,
    }
}

/// Whether a rule fires for a content type.
pub open spec fn accepts_spec(kind: FormatterKind, ct: Option<Seq<char>>) -> bool {
    match kind {
        FormatterKind::JsonPretty => match ct {
            Some(c) => contains_seq(c, "json"@),
            None => false,
        },
    }
}

/// True of the whitespace characters that are insignificant in JSON
/// outside string literals.
pub open spec fn is_json_ws(c: char) -> bool {
    c == ' ' || c == '\t' || c == '\n' || c == '\r'
}

/// Executable test for [`is_json_ws`].
fn json_ws_char(c: char) -> (r: bool)
    ensures
        r == is_json_ws(c),
{
    c == ' ' || c == '\t' || c == '\n' || c == '\r'
}

/// Two spaces per nesting level.
pub open spec fn indent(n: nat) -> Seq<char>
    decreases n,
{
    if n == 0 {
        Seq::empty()
    } else {
        indent((n - 1) as nat) + seq![' ', ' ']
    }
}

/// Prepends `p` to a successful remainder; failure passes through.
pub open spec fn pp_prepend(p: Seq<char>, o: Option<Seq<char>>) -> Option<Seq<char>> {
    match o {
        Some(r) => Some(p + r),
        None => None,
    }
}

/// One pass of the JSON re-indenter over the suffix of `s` starting at
/// `i`. `stack` holds the open brackets, `in_str`/`esc` the string-literal
/// state. String literals are copied verbatim; insignificant whitespace
/// is dropped; brackets and commas start indented lines; a colon gains a
/// space. Mismatched or unclosed brackets and an unterminated string
/// yield nothing.
pub open spec fn pp_from(
    s: Seq<char>,
    i: int,
    stack: Seq<char>,
    in_str: bool,
    esc: bool,
) -> Option<Seq<char>>
    decreases s.len() - i,
{
    if !(0 <= i < s.len()) {
        if in_str || stack.len() > 0 {
            None
        } else {
            Some(Seq::empty())
        }
    } else {
        let c = s[i];
        if in_str {
            if esc {
                pp_prepend(seq![c], pp_from(s, i + 1, stack, true, false))
            } else if c == '\\' {
                pp_prepend(seq![c], pp_from(s, i + 1, stack, true, true))
            } else if c == '"' {
                pp_prepend(seq![c], pp_from(s, i + 1, stack, false, false))
            } else {
                pp_prepend(seq![c], pp_from(s, i + 1, stack, true, false))
            }
        } else if c == '"' {
            pp_prepend(seq![c], pp_from(s, i + 1, stack, true, false))
        } else if c == '{' || c == '[' {
            pp_prepend(
                seq![c, '\n'] + indent(stack.len() + 1),
                pp_from(s, i + 1, stack.push(c), false, false),
            )
        } else if c == '}' || c == ']' {
            if stack.len() > 0 && stack.last() == (if c == '}' {
                '{'
            } else {
                '['
            }) {
                pp_prepend(
                    seq!['\n'] + indent((stack.len() - 1) as nat) + seq![c],
                    pp_from(s, i + 1, stack.drop_last(), false, false),
                )
            } else {
                None
            }
        } else if c == ',' {
            pp_prepend(seq![c, '\n'] + indent(stack.len()), pp_from(s, i + 1, stack, false, false))
        } else if c == ':' {
            pp_prepend(seq![c, ' '], pp_from(s, i + 1, stack, false, false))
        } else if is_json_ws(c) {
            pp_from(s, i + 1, stack, false, false)
        } else {
            pp_prepend(seq![c], pp_from(s, i + 1, stack, false, false))
        }
    }
}

/// The JSON re-indenter over the whole of `s`, when `s` is structurally
/// well formed.
pub open spec fn pretty_spec(s: Seq<char>) -> Option<Seq<char>> {
    pp_from(s, 0, Seq::empty(), false, false)
}

/// What a rule's transform yields, when it succeeds.
pub open spec fn transform_spec(kind: FormatterKind, body: Seq<char>) -> Option<Seq<char>> {
    match kind {
        FormatterKind::JsonPretty => pretty_spec(body),
    }
}

/// Appends `indent(n)` to `out`.
fn append_indent(out: &mut String, n: usize)
    ensures
        final(out)@ == old(out)@ + indent(n as nat),
{
    let mut j: usize = 0;
    while j < n
        invariant
            j <= n,
            out@ == old(out)@ + indent(j as nat),
        decreases n - j,
    {
        out.append("  ");
        proof {
            reveal_strlit("  ");
            assert(("  ")@ =~= seq![' ', ' ']);
            assert(old(out)@ + indent(j as nat) + seq![' ', ' '] =~= old(out)@ + indent(
                (j + 1) as nat,
            ));
        }
        j = j + 1;
    }
    proof {
        assert(indent(0nat) =~= Seq::<char>::empty());
        assert(old(out)@ + indent(0nat) =~= old(out)@);
    }
}

/// Re-indents structurally well-formed JSON; fails on mismatched or
/// unclosed brackets or an unterminated string, in which case the caller
/// keeps the body it had.
pub fn json_pretty(body: &str) -> (r: Result<String, FormatError>)
    ensures
        match r {
            Ok(out) => pretty_spec(body@) == Some(out@),
            Err(e) => pretty_spec(body@) is None,
        },
{
    let n = body.unicode_len();
    let mut out = String::new();
    let mut stack: Vec<char> = Vec::new();
    let mut in_str = false;
    let mut esc = false;
    let mut i: usize = 0;
    while i < n
        invariant
            i <= n,
            n == body@.len(),
            stack@.len() <= i,
            !in_str ==> !esc,
            match pp_from(body@, i as int, stack@, in_str, esc) {
                Some(rest) => pretty_spec(body@) == Some(out@ + rest),
                None => pretty_spec(body@) is None,
            },
        decreases n - i,
    {
        let ghost prev = out@;
        let ghost gi = i as int;
        let c = body.get_char(i);
        let piece = body.substring_char(i, i + 1);
        proof {
            assert(piece@ =~= seq![c]);
        }
        if in_str {
            out.append(piece);
            if esc {
                esc = false;
            } else if c == '\\' {
                esc = true;
            } else if c == '"' {
                in_str = false;
            }
            proof {
                let rest0 = pp_from(body@, gi + 1, stack@, in_str, esc);
                if rest0 is Some {
                    assert(prev + (seq![c] + rest0->0) =~= (prev + seq![c]) + rest0->0);
                }
            }
        } else if c == '"' {
            out.append(piece);
            in_str = true;
            proof {
                let rest0 = pp_from(body@, gi + 1, stack@, true, false);
                if rest0 is Some {
                    assert(prev + (seq![c] + rest0->0) =~= (prev + seq![c]) + rest0->0);
                }
            }
        } else if c == '{' || c == '[' {
            out.append(piece);
            out.append("\n");
            append_indent(&mut out, stack.len() + 1);
            stack.push(c);
            proof {
                reveal_strlit("\n");
                assert(("\n")@ =~= seq!['\n']);
                let rest0 = pp_from(body@, gi + 1, stack@, false, false);
                if rest0 is Some {
                    assert(prev + ((seq![c, '\n'] + indent((stack@.len()) as nat)) + rest0->0)
                        =~= ((prev + seq![c]) + seq!['\n'] + indent((stack@.len()) as nat))
                        + rest0->0);
                }
            }
        } else if c == '}' || c == ']' {
            let want = if c == '}' {
                '{'
            } else {
                '['
            };
            if stack.len() == 0 || stack[stack.len() - 1] != want {
                return Err(FormatError::MalformedContent);
            }
            let ghost oldstack = stack@;
            let depth = stack.len() - 1;
            stack.pop();
            proof {
                assert(stack@ =~= oldstack.drop_last());
            }
            out.append("\n");
            append_indent(&mut out, depth);
            out.append(piece);
            proof {
                reveal_strlit("\n");
                assert(("\n")@ =~= seq!['\n']);
                let rest0 = pp_from(body@, gi + 1, stack@, false, false);
                if rest0 is Some {
                    assert(prev + ((seq!['\n'] + indent(depth as nat) + seq![c]) + rest0->0)
                        =~= (((prev + seq!['\n']) + indent(depth as nat)) + seq![c]) + rest0->0);
                }
            }
        } else if c == ',' {
            out.append(piece);
            out.append("\n");
            append_indent(&mut out, stack.len());
            proof {
                reveal_strlit("\n");
                assert(("\n")@ =~= seq!['\n']);
                let rest0 = pp_from(body@, gi + 1, stack@, false, false);
                if rest0 is Some {
                    assert(prev + ((seq![c, '\n'] + indent(stack@.len())) + rest0->0) =~= ((prev
                        + seq![c]) + seq!['\n'] + indent(stack@.len())) + rest0->0);
                }
            }
        } else if c == ':' {
            out.append(piece);
            out.append(" ");
            proof {
                reveal_strlit(" ");
                assert((" ")@ =~= seq![' ']);
                let rest0 = pp_from(body@, gi + 1, stack@, false, false);
                if rest0 is Some {
                    assert(prev + (seq![c, ' '] + rest0->0) =~= ((prev + seq![c]) + seq![' '])
                        + rest0->0);
                }
            }
        } else if json_ws_char(c) {
        } else {
            out.append(piece);
            proof {
                let rest0 = pp_from(body@, gi + 1, stack@, false, false);
                if rest0 is Some {
                    assert(prev + (seq![c] + rest0->0) =~= (prev + seq![c]) + rest0->0);
                }
            }
        }
        i = i + 1;
    }
    if in_str || stack.len() > 0 {
        return Err(FormatError::MalformedContent);
    }
    proof {
        assert(out@ + Seq::<char>::empty() =~= out@);
    }
    Ok(out)
}

impl FormatterRule {
    /// Whether this rule fires for `content_type`.
    pub fn accept(&self, content_type: Option<&str>) -> (r: bool)
        ensures
            r == accepts_spec(self.kind, ct_view(content_type)),
    {
        match self.kind {
            FormatterKind::JsonPretty => match content_type {
                Some(c) => str_contains(c, "json"),
                None => false,
            },
        }
    }

    /// Applies this rule's transform to `content`.
    pub fn format(&self, content: &str) -> (r: Result<String, FormatError>)
        ensures
            match r {
                Ok(out) => transform_spec(self.kind, content@) == Some(out@),
                Err(e) => transform_spec(self.kind, content@) is None,
            },
    {
        match self.kind {
            FormatterKind::JsonPretty => json_pretty(content),
        }
    }
}

/// The kinds of a rule list, in order.
pub open spec fn kinds_of(rules: Seq<FormatterRule>) -> Seq<FormatterKind> {
    rules.map_values(|x: FormatterRule| x.kind)
}

/// What the pipeline yields: each rule in order either fires and, when
/// its transform succeeds, replaces the body, or leaves the body as it
/// was; failures are swallowed.
pub open spec fn apply_spec(
    ct: Option<Seq<char>>,
    body: Seq<char>,
    rules: Seq<FormatterKind>,
) -> Seq<char>
    decreases rules.len(),
{
    if rules.len() == 0 {
        body
    } else {
        let next = if accepts_spec(rules.first(), ct) {
            match transform_spec(rules.first(), body) {
                Some(o) => o,
                None => body,
            }
        } else {
            body
        };
        apply_spec(ct, next, rules.drop_first())
    }
}

/// Runs the rule list over `body` in order; never fails: a rule whose
/// transform fails leaves the body stage unchanged.
pub fn apply(content_type: Option<&str>, body: String, rules: &Vec<FormatterRule>) -> (r: String)
    ensures
        r@ == apply_spec(ct_view(content_type), body@, kinds_of(rules@)),
{
    let ghost kinds = kinds_of(rules@);
    let ghost body0 = body@;
    let mut cur = body;
    let mut i: usize = 0;
    proof {
        assert(kinds.skip(0) =~= kinds);
    }
    while i < rules.len()
        invariant
            i <= rules@.len(),
            kinds == kinds_of(rules@),
            apply_spec(ct_view(content_type), cur@, kinds.skip(i as int)) == apply_spec(
                ct_view(content_type),
                body0,
                kinds,
            ),
        decreases rules@.len() - i,
    {
        proof {
            assert(kinds.skip(i as int).first() == kinds[i as int]);
            assert(kinds.skip(i as int).drop_first() =~= kinds.skip(i as int + 1));
        }
        let rule = rules[i];
        if rule.accept(content_type) {
            match rule.format(cur.as_str()) {
                Ok(o) => {
                    cur = o;
                },
                Err(_) => {},
            }
        }
        i = i + 1;
    }
    proof {
        assert(kinds.skip(rules@.len() as int) =~= Seq::<FormatterKind>::empty());
    }
    cur
}

/// The built-in rule list: the JSON re-indenter, gated on content types
/// that mention `json`.
pub fn formatters() -> (r: Vec<FormatterRule>)
    ensures
        kinds_of(r@) == seq![FormatterKind::JsonPretty],
{
    let mut v: Vec<FormatterRule> = Vec::new();
    v.push(FormatterRule { kind: FormatterKind::JsonPretty });
    proof {
        assert(kinds_of(v@) =~= seq![FormatterKind::JsonPretty]);
    }
    v
}

/// The string-literal scanner state after reading `c` in state
/// (`in_str`, `esc`).
pub open spec fn str_state(c: char, in_str: bool, esc: bool) -> (bool, bool) {
    if in_str {
        if esc {
            (true, false)
        } else if c == '\\' {
            (true, true)
        } else if c == '"' {
            (false, false)
        } else {
            (true, false)
        }
    } else if c == '"' {
        (true, false)
    } else {
        (false, false)
    }
}

/// The suffix of `s` from `i` with insignificant whitespace removed:
/// characters inside string literals are all kept, whitespace outside
/// them is dropped.
pub open spec fn strip_from(s: Seq<char>, i: int, in_str: bool, esc: bool) -> Seq<char>
    decreases s.len() - i,
{
    if !(0 <= i < s.len()) {
        Seq::empty()
    } else {
        let c = s[i];
        let st = str_state(c, in_str, esc);
        if !in_str && is_json_ws(c) {
            strip_from(s, i + 1, false, false)
        } else {
            seq![c] + strip_from(s, i + 1, st.0, st.1)
        }
    }
}

/// `s` with its insignificant whitespace removed.
pub open spec fn strip_ws(s: Seq<char>) -> Seq<char> {
    strip_from(s, 0, false, false)
}

proof fn lemma_strip_shift(x: Seq<char>, y: Seq<char>, k: int, in_str: bool, esc: bool)
    requires
        0 <= k <= y.len(),
    ensures
        strip_from(x + y, x.len() + k, in_str, esc) == strip_from(y, k, in_str, esc),
    decreases y.len() - k,
{
    if k < y.len() {
        assert((x + y)[x.len() + k] == y[k]);
        let st = str_state(y[k], in_str, esc);
        lemma_strip_shift(x, y, k + 1, st.0, st.1);
        lemma_strip_shift(x, y, k + 1, false, false);
    }
}

proof fn lemma_strip_ws_prefix(w: Seq<char>, rest: Seq<char>)
    requires
        forall|j: int| 0 <= j < w.len() ==> is_json_ws(w[j]),
    ensures
        strip_from(w + rest, 0, false, false) == strip_from(rest, 0, false, false),
    decreases w.len(),
{
    if w.len() == 0 {
        assert(w + rest =~= rest);
    } else {
        assert((w + rest)[0] == w[0]);
        assert(w + rest =~= seq![w[0]] + (w.drop_first() + rest));
        lemma_strip_shift(seq![w[0]], w.drop_first() + rest, 0, false, false);
        lemma_strip_ws_prefix(w.drop_first(), rest);
    }
}

proof fn lemma_indent_ws(n: nat)
    ensures
        forall|j: int| 0 <= j < indent(n).len() ==> is_json_ws(indent(n)[j]),
    decreases n,
{
    if n > 0 {
        let m = (n - 1) as nat;
        lemma_indent_ws(m);
        assert(indent(n) == indent(m) + seq![' ', ' ']);
        assert forall|j: int| 0 <= j < indent(n).len() implies is_json_ws(indent(n)[j]) by {
            if j < indent(m).len() {
                assert(indent(n)[j] == indent(m)[j]);
            } else {
                assert(indent(n)[j] == seq![' ', ' '][j - indent(m).len()]);
            }
        }
    } else {
        assert(indent(n).len() == 0);
    }
}

/// Strips a single kept character off the front.
proof fn lemma_strip_cons(c: char, rest: Seq<char>, in_str: bool, esc: bool)
    requires
        in_str || !is_json_ws(c),
    ensures
        strip_from(seq![c] + rest, 0, in_str, esc) == seq![c] + strip_from(
            rest,
            0,
            str_state(c, in_str, esc).0,
            str_state(c, in_str, esc).1,
        ),
{
    assert((seq![c] + rest)[0] == c);
    let st = str_state(c, in_str, esc);
    lemma_strip_shift(seq![c], rest, 0, st.0, st.1);
}

/// Re-indenting is content-preserving, pass by pass: stripping the
/// insignificant whitespace from what `pp_from` emits gives exactly the
/// remaining input with its insignificant whitespace stripped.
proof fn lemma_pp_preserves_content(
    s: Seq<char>,
    i: int,
    stack: Seq<char>,
    in_str: bool,
    esc: bool,
)
    requires
        0 <= i <= s.len(),
        pp_from(s, i, stack, in_str, esc) is Some,
    ensures
        strip_from(pp_from(s, i, stack, in_str, esc)->0, 0, in_str, esc) == strip_from(
            s,
            i,
            in_str,
            esc,
        ),
    decreases s.len() - i,
{
    if i >= s.len() {
        assert(pp_from(s, i, stack, in_str, esc)->0 =~= Seq::<char>::empty());
    } else {
        let c = s[i];
        let st = str_state(c, in_str, esc);
        if in_str || c == '"' {
            let stack2 = stack;
            let rest = pp_from(s, i + 1, stack2, st.0, st.1);
            assert(rest is Some);
            lemma_pp_preserves_content(s, i + 1, stack2, st.0, st.1);
            lemma_strip_cons(c, rest->0, in_str, esc);
        } else if c == '{' || c == '[' {
            let rest = pp_from(s, i + 1, stack.push(c), false, false);
            assert(rest is Some);
            lemma_pp_preserves_content(s, i + 1, stack.push(c), false, false);
            let w = seq!['\n'] + indent(stack.len() + 1);
            lemma_indent_ws(stack.len() + 1);
            assert(forall|j: int| 0 <= j < w.len() ==> is_json_ws(w[j]));
            assert((seq![c, '\n'] + indent(stack.len() + 1)) + rest->0 =~= seq![c] + (w
                + rest->0));
            lemma_strip_cons(c, w + rest->0, false, false);
            lemma_strip_ws_prefix(w, rest->0);
        } else if c == '}' || c == ']' {
            let rest = pp_from(s, i + 1, stack.drop_last(), false, false);
            assert(rest is Some);
            lemma_pp_preserves_content(s, i + 1, stack.drop_last(), false, false);
            let w = seq!['\n'] + indent((stack.len() - 1) as nat);
            lemma_indent_ws((stack.len() - 1) as nat);
            assert(forall|j: int| 0 <= j < w.len() ==> is_json_ws(w[j]));
            assert((seq!['\n'] + indent((stack.len() - 1) as nat) + seq![c]) + rest->0 =~= w + (
            seq![c] + rest->0));
            lemma_strip_ws_prefix(w, seq![c] + rest->0);
            lemma_strip_cons(c, rest->0, false, false);
        } else if c == ',' {
            let rest = pp_from(s, i + 1, stack, false, false);
            assert(rest is Some);
            lemma_pp_preserves_content(s, i + 1, stack, false, false);
            let w = seq!['\n'] + indent(stack.len());
            lemma_indent_ws(stack.len());
            assert(forall|j: int| 0 <= j < w.len() ==> is_json_ws(w[j]));
            assert((seq![c, '\n'] + indent(stack.len())) + rest->0 =~= seq![c] + (w + rest->0));
            lemma_strip_cons(c, w + rest->0, false, false);
            lemma_strip_ws_prefix(w, rest->0);
        } else if c == ':' {
            let rest = pp_from(s, i + 1, stack, false, false);
            assert(rest is Some);
            lemma_pp_preserves_content(s, i + 1, stack, false, false);
            assert(seq![c, ' '] + rest->0 =~= seq![c] + (seq![' '] + rest->0));
            lemma_strip_cons(c, seq![' '] + rest->0, false, false);
            lemma_strip_ws_prefix(seq![' '], rest->0);
        } else if is_json_ws(c) {
            lemma_pp_preserves_content(s, i + 1, stack, false, false);
        } else {
            let rest = pp_from(s, i + 1, stack, false, false);
            assert(rest is Some);
            lemma_pp_preserves_content(s, i + 1, stack, false, false);
            lemma_strip_cons(c, rest->0, false, false);
        }
    }
}

proof fn lemma_pp_shift(
    x: Seq<char>,
    y: Seq<char>,
    k: int,
    stack: Seq<char>,
    in_str: bool,
    esc: bool,
)
    requires
        0 <= k <= y.len(),
    ensures
        pp_from(x + y, x.len() + k, stack, in_str, esc) == pp_from(y, k, stack, in_str, esc),
    decreases y.len() - k,
{
    if k < y.len() {
        let c = y[k];
        assert((x + y)[x.len() + k] == c);
        lemma_pp_shift(x, y, k + 1, stack, true, false);
        lemma_pp_shift(x, y, k + 1, stack, true, true);
        lemma_pp_shift(x, y, k + 1, stack, false, false);
        lemma_pp_shift(x, y, k + 1, stack.push(c), false, false);
        if stack.len() > 0 {
            lemma_pp_shift(x, y, k + 1, stack.drop_last(), false, false);
        }
    }
}

proof fn lemma_pp_ws_skip(w: Seq<char>, y: Seq<char>, stack: Seq<char>)
    requires
        forall|j: int| 0 <= j < w.len() ==> is_json_ws(w[j]),
    ensures
        pp_from(w + y, 0, stack, false, false) == pp_from(y, 0, stack, false, false),
    decreases w.len(),
{
    if w.len() == 0 {
        assert(w + y =~= y);
    } else {
        assert((w + y)[0] == w[0]);
        assert(w + y =~= seq![w[0]] + (w.drop_first() + y));
        lemma_pp_shift(seq![w[0]], w.drop_first() + y, 0, stack, false, false);
        lemma_pp_ws_skip(w.drop_first(), y, stack);
    }
}

/// Re-indenting is idempotent, pass by pass: what one pass emits, a
/// second pass from the same state emits unchanged.
proof fn lemma_pp_idempotent(s: Seq<char>, i: int, stack: Seq<char>, in_str: bool, esc: bool)
    requires
        0 <= i <= s.len(),
        pp_from(s, i, stack, in_str, esc) is Some,
    ensures
        pp_from(pp_from(s, i, stack, in_str, esc)->0, 0, stack, in_str, esc) == pp_from(
            s,
            i,
            stack,
            in_str,
            esc,
        ),
    decreases s.len() - i,
{
    let r = pp_from(s, i, stack, in_str, esc)->0;
    if i >= s.len() {
        assert(r =~= Seq::<char>::empty());
    } else {
        let c = s[i];
        if in_str || c == '"' {
            let st = str_state(c, in_str, esc);
            let rest = pp_from(s, i + 1, stack, st.0, st.1);
            assert(rest is Some);
            lemma_pp_idempotent(s, i + 1, stack, st.0, st.1);
            assert(r =~= seq![c] + rest->0);
            assert(r[0] == c);
            lemma_pp_shift(seq![c], rest->0, 0, stack, st.0, st.1);
        } else if c == '{' || c == '[' {
            let rest = pp_from(s, i + 1, stack.push(c), false, false);
            assert(rest is Some);
            lemma_pp_idempotent(s, i + 1, stack.push(c), false, false);
            let w = seq!['\n'] + indent(stack.len() + 1);
            lemma_indent_ws(stack.len() + 1);
            let tail = w + rest->0;
            assert(r =~= seq![c] + tail);
            assert(r[0] == c);
            lemma_pp_shift(seq![c], tail, 0, stack.push(c), false, false);
            lemma_pp_ws_skip(w, rest->0, stack.push(c));
            assert(seq![c, '\n'] + indent(stack.len() + 1) + rest->0 =~= r);
        } else if c == '}' || c == ']' {
            let rest = pp_from(s, i + 1, stack.drop_last(), false, false);
            assert(rest is Some);
            assert(stack.len() > 0);
            lemma_pp_idempotent(s, i + 1, stack.drop_last(), false, false);
            let w = seq!['\n'] + indent((stack.len() - 1) as nat);
            lemma_indent_ws((stack.len() - 1) as nat);
            assert(forall|j: int| 0 <= j < w.len() ==> is_json_ws(w[j]));
            let tail = seq![c] + rest->0;
            assert(r =~= w + tail);
            lemma_pp_ws_skip(w, tail, stack);
            assert(tail[0] == c);
            lemma_pp_shift(seq![c], rest->0, 0, stack.drop_last(), false, false);
            assert(seq!['\n'] + indent((stack.len() - 1) as nat) + seq![c] + rest->0 =~= r);
        } else if c == ',' {
            let rest = pp_from(s, i + 1, stack, false, false);
            assert(rest is Some);
            lemma_pp_idempotent(s, i + 1, stack, false, false);
            let w = seq!['\n'] + indent(stack.len());
            lemma_indent_ws(stack.len());
            let tail = w + rest->0;
            assert(r =~= seq![c] + tail);
            assert(r[0] == c);
            lemma_pp_shift(seq![c], tail, 0, stack, false, false);
            lemma_pp_ws_skip(w, rest->0, stack);
            assert(seq![c, '\n'] + indent(stack.len()) + rest->0 =~= r);
        } else if c == ':' {
            let rest = pp_from(s, i + 1, stack, false, false);
            assert(rest is Some);
            lemma_pp_idempotent(s, i + 1, stack, false, false);
            let tail = seq![' '] + rest->0;
            assert(r =~= seq![c] + tail);
            assert(r[0] == c);
            lemma_pp_shift(seq![c], tail, 0, stack, false, false);
            lemma_pp_ws_skip(seq![' '], rest->0, stack);
            assert(seq![c, ' '] + rest->0 =~= r);
        } else if is_json_ws(c) {
            lemma_pp_idempotent(s, i + 1, stack, false, false);
        } else {
            let rest = pp_from(s, i + 1, stack, false, false);
            assert(rest is Some);
            lemma_pp_idempotent(s, i + 1, stack, false, false);
            assert(r =~= seq![c] + rest->0);
            assert(r[0] == c);
            lemma_pp_shift(seq![c], rest->0, 0, stack, false, false);
        }
    }
}

/// Re-indenting already re-indented JSON returns it unchanged: a body the
/// printer accepted is a fixed point of the printer.
pub proof fn lemma_pretty_idempotent(s: Seq<char>)
    requires
        pretty_spec(s) is Some,
    ensures
        pretty_spec(pretty_spec(s)->0) == pretty_spec(s),
{
    lemma_pp_idempotent(s, 0, Seq::empty(), false, false);
}

/// Re-indenting changes only insignificant whitespace: stripping it from
/// the printer's output gives exactly the input stripped the same way, so
/// the two hold the same tokens in the same order and parse alike.
pub proof fn lemma_pretty_preserves_content(s: Seq<char>)
    requires
        pretty_spec(s) is Some,
    ensures
        strip_ws(pretty_spec(s)->0) == strip_ws(s),
{
    lemma_pp_preserves_content(s, 0, Seq::empty(), false, false);
}

/// A pipeline in which no rule fires — none accepts the content type, or
/// every accepting rule's transform fails on the body — returns the body
/// unchanged; in particular a malformed body survives the pipeline as it
/// was, rather than aborting it.
pub proof fn lemma_apply_no_effect(
    ct: Option<Seq<char>>,
    body: Seq<char>,
    rules: Seq<FormatterKind>,
)
    requires
        forall|j: int|
            0 <= j < rules.len() ==> !accepts_spec(rules[j], ct) || transform_spec(
                rules[j],
                body,
            ) is None,
    ensures
        apply_spec(ct, body, rules) == body,
    decreases rules.len(),
{
    if rules.len() > 0 {
        assert(rules[0] == rules.first());
        assert forall|j: int| 0 <= j < rules.drop_first().len() implies !accepts_spec(
            rules.drop_first()[j],
            ct,
        ) || transform_spec(rules.drop_first()[j], body) is None by {
            assert(rules.drop_first()[j] == rules[j + 1]);
        }
        lemma_apply_no_effect(ct, body, rules.drop_first());
    }
}

} // verus!
