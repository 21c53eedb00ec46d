//! The substitution engine: scans template text for `{{NAME}}` placeholders
//! and replaces each with the matching property value, all or nothing.

use vstd::prelude::*;
use crate::props::{Property, lookup_spec, lookup};

verus! {

/// Failure of placeholder substitution.
#[derive(Debug)]
pub enum SubstitutionError {
    /// A placeholder named a property that the property set lacks;
    /// the payload is that name.
    MissingValue(String),
}

/// True of the characters a placeholder name may consist of:
/// letters, digits and underscore.
pub open spec fn is_ident_char(c: char) -> bool {
    ('a' <= c && c <= 'z') || ('A' <= c && c <= 'Z') || ('0' <= c && c <= '9') || c == '_'
}

/// Executable test for [`is_ident_char`].
pub fn ident_char(c: char) -> (r: bool)
    ensures
        r == is_ident_char(c),
{
    ('a' <= c && c <= 'z') || ('A' <= c && c <= 'Z') || ('0' <= c && c <= '9') || c == '_'
}

/// The end of the run of identifier characters of `t` that starts at `j`.
pub open spec fn ident_run_end(t: Seq<char>, j: int) -> int
    decreases t.len() - j,
{
    if 0 <= j < t.len() && is_ident_char(t[j]) {
        ident_run_end(t, j + 1)
    } else {
        j
    }
}

pub proof fn lemma_ident_run_end(t: Seq<char>, j: int)
    requires
        0 <= j <= t.len(),
    ensures
        j <= ident_run_end(t, j) <= t.len(),
        forall|k: int| j <= k < ident_run_end(t, j) ==> is_ident_char(t[k]),
    decreases t.len() - j,
{
    if j < t.len() && is_ident_char(t[j]) {
        lemma_ident_run_end(t, j + 1);
    }
}

/// Well-formed placeholders never overlap: one that starts after another
/// starts past the other's closing marker.
pub proof fn lemma_placeholders_disjoint(t: Seq<char>, i: int, j: int)
    requires
        placeholder_at(t, i),
        placeholder_at(t, j),
        i < j,
    ensures
        j >= placeholder_end(t, i),
{
    let e = ident_run_end(t, i + 2);
    lemma_ident_run_end(t, i + 2);
    if j < e + 2 {
        assert(t[j] == '{' && t[j + 1] == '{');
        if j == i + 1 {
            assert(is_ident_char(t[i + 2]));
        } else if i + 2 <= j < e {
            assert(is_ident_char(t[j]));
        } else if j == e {
            assert(t[e] == '}');
        } else {
            assert(j == e + 1);
            assert(t[e + 1] == '}');
        }
        assert(false);
    }
}

/// The scan underlying substitution reaches every placeholder: when
/// substitution of the suffix at `j` succeeds and a placeholder stands at
/// `i` at or past `j`, substitution of the suffix at `i` succeeds too.
proof fn lemma_scan_reaches(t: Seq<char>, props: Seq<Property>, j: int, i: int)
    requires
        0 <= j <= i,
        placeholder_at(t, i),
        subst_from(t, props, j) is Ok,
    ensures
        subst_from(t, props, i) is Ok,
    decreases i - j,
{
    if j < i {
        if placeholder_at(t, j) {
            lemma_placeholders_disjoint(t, j, i);
            lemma_scan_reaches(t, props, placeholder_end(t, j), i);
        } else {
            lemma_scan_reaches(t, props, j + 1, i);
        }
    }
}

/// Every placeholder is resolved: when substitution succeeds, each
/// placeholder's name has a value, and the text substituted from the
/// placeholder onwards starts with that value — so no marker of a
/// resolved name survives in the output.
pub proof fn lemma_every_placeholder_resolved(t: Seq<char>, props: Seq<Property>, i: int)
    requires
        placeholder_at(t, i),
        subst_spec(t, props) is Ok,
    ensures
        lookup_spec(props, placeholder_name(t, i)) is Some,
        subst_from(t, props, i) is Ok,
        subst_from(t, props, i)->Ok_0 == lookup_spec(props, placeholder_name(t, i))->0
            + subst_from(t, props, placeholder_end(t, i))->Ok_0,
{
    lemma_scan_reaches(t, props, 0, i);
}

/// True when a well-formed placeholder `{{NAME}}` with a non-empty name
/// starts at index `i` of `t`.
pub open spec fn placeholder_at(t: Seq<char>, i: int) -> bool {
    &&& 0 <= i
    &&& i + 2 <= t.len()
    &&& t[i] == '{'
    &&& t[i + 1] == '{'
    &&& ident_run_end(t, i + 2) > i + 2
    &&& ident_run_end(t, i + 2) + 2 <= t.len()
    &&& t[ident_run_end(t, i + 2)] == '}'
    &&& t[ident_run_end(t, i + 2) + 1] == '}'
}

/// The name between the markers of the placeholder starting at `i`.
pub open spec fn placeholder_name(t: Seq<char>, i: int) -> Seq<char> {
    t.subrange(i + 2, ident_run_end(t, i + 2))
}

/// The index just past the closing marker of the placeholder starting at `i`.
pub open spec fn placeholder_end(t: Seq<char>, i: int) -> int {
    ident_run_end(t, i + 2) + 2
}

/// What substitution yields on the suffix of `t` that starts at `i`: the
/// substituted text, or the name of the first scanned placeholder whose
/// property is missing. Text outside well-formed placeholders passes
/// through unchanged; property values are not re-scanned.
pub open spec fn subst_from(t: Seq<char>, props: Seq<Property>, i: int) -> Result<
    Seq<char>,
    Seq<char>,
>
    decreases t.len() - i,
{
    if !(0 <= i < t.len()) {
        Ok(Seq::empty())
    } else if placeholder_at(t, i) {
        match lookup_spec(props, placeholder_name(t, i)) {
            Some(v) => match subst_from(t, props, placeholder_end(t, i)) {
                Ok(rest) => Ok(v + rest),
                Err(e) => Err(e),
            },
            None => Err(placeholder_name(t, i)),
        }
    } else {
        match subst_from(t, props, i + 1) {
            Ok(rest) => Ok(seq![t[i]] + rest),
            Err(e) => Err(e),
        }
    }
}

/// Substitution over the whole of `t`: `Ok` with the resolved text, or
/// `Err` with the name of the first placeholder that has no property.
pub open spec fn subst_spec(t: Seq<char>, props: Seq<Property>) -> Result<Seq<char>, Seq<char>> {
    subst_from(t, props, 0)
}

/// The end of the identifier run of `t` that starts at `j`.
fn ident_run_end_exec(t: &str, j: usize) -> (r: usize)
    requires
        j <= t@.len(),
    ensures
        r as int == ident_run_end(t@, j as int),
        j <= r <= t@.len(),
{
    let n = t.unicode_len();
    let mut k: usize = j;
    while k < n
        invariant
            j <= k <= n,
            n == t@.len(),
            ident_run_end(t@, j as int) == ident_run_end(t@, k as int),
        decreases n - k,
    {
        if !ident_char(t.get_char(k)) {
            return k;
        }
        k = k + 1;
    }
    k
}

/// Replaces every `{{NAME}}` placeholder of `file` with the value that
/// `props` gives to `NAME`; fails with the first missing name, in which
/// case no output is produced at all. The result is a function of the
/// template text and the properties alone, so a failed call fails the
/// same way when repeated.
pub fn substitution(file: String, props: Vec<Property>) -> (r: Result<String, SubstitutionError>)
    ensures
        match r {
            Ok(s) => subst_spec(file@, props@) == Ok::<Seq<char>, Seq<char>>(s@),
            Err(SubstitutionError::MissingValue(n)) => subst_spec(file@, props@) == Err::<
                Seq<char>,
                Seq<char>,
            >(n@),
        },
{
    let t: &str = file.as_str();
    let n = t.unicode_len();
    let mut out = String::new();
    let mut i: usize = 0;
    while i < n
        invariant
            i <= n,
            n == t@.len(),
            t@ == file@,
            match subst_from(file@, props@, i as int) {
                Ok(rest) => subst_spec(file@, props@) == Ok::<Seq<char>, Seq<char>>(out@ + rest),
                Err(e) => subst_spec(file@, props@) == Err::<Seq<char>, Seq<char>>(e),
            },
        decreases n - i,
    {
        let ghost prev_out = out@;
        let c = t.get_char(i);
        let mut literal = true;
        if c == '{' && i + 1 < n && t.get_char(i + 1) == '{' {
            let e = ident_run_end_exec(t, i + 2);
            if e > i + 2 && e < n && e + 1 < n && t.get_char(e) == '}' && t.get_char(e + 1) == '}' {
                literal = false;
                assert(placeholder_at(t@, i as int));
                let name = t.substring_char(i + 2, e);
                assert(name@ == placeholder_name(t@, i as int));
                match lookup(&props, name) {
                    Some(v) => {
                        out.append(v.as_str());
                        proof {
                            let ni = i as int;
                            let rest0 = subst_from(file@, props@, placeholder_end(file@, ni));
                            if rest0 is Ok {
                                assert(prev_out + (v@ + rest0->Ok_0) =~= (prev_out + v@)
                                    + rest0->Ok_0);
                            }
                        }
                        i = e + 2;
                    },
                    None => {
                        return Err(SubstitutionError::MissingValue(String::from_str(name)));
                    },
                }
            }
        }
        if literal {
            assert(!placeholder_at(t@, i as int));
            let piece = t.substring_char(i, i + 1);
            out.append(piece);
            proof {
                let ni = i as int;
                assert(piece@ =~= seq![t@[ni]]);
                let rest0 = subst_from(file@, props@, ni + 1);
                if rest0 is Ok {
                    assert(prev_out + (seq![t@[ni]] + rest0->Ok_0) =~= (prev_out + seq![t@[ni]])
                        + rest0->Ok_0);
                }
            }
            i = i + 1;
        }
    }
    proof {
        assert(subst_from(file@, props@, n as int) == Ok::<Seq<char>, Seq<char>>(
            Seq::<char>::empty(),
        ));
        assert(out@ + Seq::<char>::empty() =~= out@);
    }
    Ok(out)
}

/// Carries substitution over a placeholder-free span: what substitution
/// yields from `j` is that literal span followed by what it yields from `i`.
proof fn lemma_literal_scan(t: Seq<char>, props: Seq<Property>, j: int, i: int)
    requires
        0 <= j <= i <= t.len(),
        forall|k: int| j <= k < i ==> !placeholder_at(t, k),
    ensures
        subst_from(t, props, i) is Ok ==> subst_from(t, props, j) == Ok::<Seq<char>, Seq<char>>(
            t.subrange(j, i) + subst_from(t, props, i)->Ok_0,
        ),
        subst_from(t, props, i) is Err ==> subst_from(t, props, j) == subst_from(t, props, i),
    decreases i - j,
{
    if j < i {
        lemma_literal_scan(t, props, j + 1, i);
        if subst_from(t, props, i) is Ok {
            assert(t.subrange(j, i) =~= seq![t[j]] + t.subrange(j + 1, i));
            assert(seq![t[j]] + (t.subrange(j + 1, i) + subst_from(t, props, i)->Ok_0) =~= (
            seq![t[j]] + t.subrange(j + 1, i)) + subst_from(t, props, i)->Ok_0);
        }
    } else {
        if subst_from(t, props, i) is Ok {
            assert(t.subrange(j, j) + subst_from(t, props, i)->Ok_0 =~= subst_from(
                t,
                props,
                i,
            )->Ok_0);
        }
    }
}

/// A template without a single well-formed placeholder is returned
/// unchanged by substitution, whatever the properties.
pub proof fn lemma_no_placeholders_identity(t: Seq<char>, props: Seq<Property>)
    requires
        forall|k: int| 0 <= k < t.len() ==> !placeholder_at(t, k),
    ensures
        subst_spec(t, props) == Ok::<Seq<char>, Seq<char>>(t),
{
    lemma_literal_scan(t, props, 0, t.len() as int);
    assert(subst_from(t, props, t.len() as int) == Ok::<Seq<char>, Seq<char>>(Seq::empty()));
    assert(t.subrange(0, t.len() as int) + Seq::<char>::empty() =~= t);
}

/// When the first placeholder of the template starts at `i` and its name
/// resolves, successful substitution keeps the first `i` characters
/// unchanged and puts the property's value exactly at position `i`.
pub proof fn lemma_resolved_placeholder_in_output(
    t: Seq<char>,
    props: Seq<Property>,
    i: int,
    v: Seq<char>,
)
    requires
        0 <= i <= t.len(),
        forall|k: int| 0 <= k < i ==> !placeholder_at(t, k),
        placeholder_at(t, i),
        lookup_spec(props, placeholder_name(t, i)) == Some(v),
        subst_spec(t, props) is Ok,
    ensures
        subst_spec(t, props)->Ok_0.len() >= i + v.len(),
        subst_spec(t, props)->Ok_0.subrange(0, i) == t.subrange(0, i),
        subst_spec(t, props)->Ok_0.subrange(i, i + v.len()) == v,
{
    lemma_literal_scan(t, props, 0, i);
    let rest = subst_from(t, props, placeholder_end(t, i));
    assert(rest is Ok);
    let out = subst_spec(t, props)->Ok_0;
    assert(out == t.subrange(0, i) + (v + rest->Ok_0));
    assert(out.subrange(0, i) =~= t.subrange(0, i));
    assert(out.subrange(i, i + v.len()) =~= v);
}

/// When the first placeholder of the template starts at `i` and its name
/// is absent from the properties, substitution fails with exactly that
/// name, and yields no output at all.
pub proof fn lemma_missing_value(t: Seq<char>, props: Seq<Property>, i: int)
    requires
        0 <= i <= t.len(),
        forall|k: int| 0 <= k < i ==> !placeholder_at(t, k),
        placeholder_at(t, i),
        lookup_spec(props, placeholder_name(t, i)) is None,
    ensures
        subst_spec(t, props) == Err::<Seq<char>, Seq<char>>(placeholder_name(t, i)),
{
    lemma_literal_scan(t, props, 0, i);
}

} // verus!
