//! A case-insensitive, order-preserving, multi-valued header store,
//! shared by outgoing requests and incoming responses.

use vstd::prelude::*;

verus! {

/// ASCII lower-casing of one character; other characters pass unchanged.
pub open spec fn lower_char(c: char) -> char {
    if 'A' <= c && c <= 'Z' {
        (c as u8 + 32) as char
    } else {
        c
    }
}

/// ASCII lower-casing of a whole string, the equivalence under which
/// header names are compared.
pub open spec fn lower(s: Seq<char>) -> Seq<char> {
    s.map_values(|c: char| lower_char(c))
}

/// Executable ASCII lower-casing of one character.
pub fn lower_char_exec(c: char) -> (r: char)
    ensures
        r == lower_char(c),
{
    if 'A' <= c && c <= 'Z' {
        (c as u8 + 32) as char
    } else {
        c
    }
}

/// Case-insensitive equality of two header names.
pub fn name_eq(a: &str, b: &str) -> (r: bool)
    ensures
        r == (lower(a@) == lower(b@)),
{
    let n = a.unicode_len();
    let m = b.unicode_len();
    if n != m {
        proof {
            assert(lower(a@).len() == a@.len());
            assert(lower(b@).len() == b@.len());
        }
        return false;
    }
    let mut i: usize = 0;
    while i < n
        invariant
            n == a@.len(),
            n == b@.len(),
            i <= n,
            forall|k: int| 0 <= k < i ==> lower_char(a@[k]) == lower_char(b@[k]),
        decreases n - i,
    {
        if lower_char_exec(a.get_char(i)) != lower_char_exec(b.get_char(i)) {
            proof {
                assert(lower(a@)[i as int] != lower(b@)[i as int]);
            }
            return false;
        }
        i = i + 1;
    }
    proof {
        assert(lower(a@) =~= lower(b@));
    }
    true
}

/// The first value whose name compares case-insensitively equal to
/// `name`, in insertion order.
pub open spec fn get_spec(pairs: Seq<(Seq<char>, Seq<char>)>, name: Seq<char>) -> Option<Seq<char>>
    decreases pairs.len(),
{
    if pairs.len() == 0 {
        None
    } else if lower(pairs.first().0) == lower(name) {
        Some(pairs.first().1)
    } else {
        get_spec(pairs.drop_first(), name)
    }
}

/// Every value stored under a name that compares case-insensitively
/// equal to `name`, in insertion order.
pub open spec fn get_all_spec(pairs: Seq<(Seq<char>, Seq<char>)>, name: Seq<char>) -> Seq<
    Seq<char>,
>
    decreases pairs.len(),
{
    if pairs.len() == 0 {
        Seq::empty()
    } else if lower(pairs.first().0) == lower(name) {
        seq![pairs.first().1] + get_all_spec(pairs.drop_first(), name)
    } else {
        get_all_spec(pairs.drop_first(), name)
    }
}

/// An ordered, case-insensitive, multi-valued mapping from header name
/// to values. Insertion order is preserved for iteration; a name may
/// occur several times; lookup returns the first match.
#[derive(Debug)]
pub struct HeaderCollection {
    pairs: Vec<(String, String)>,
}

impl View for HeaderCollection {
    type V = Seq<(Seq<char>, Seq<char>)>;

    closed spec fn view(&self) -> Seq<(Seq<char>, Seq<char>)> {
        self.pairs@.map_values(|p: (String, String)| (p.0@, p.1@))
    }
}

impl HeaderCollection {
    /// An empty collection.
    pub fn new() -> (r: Self)
        ensures
            r@ == Seq::<(Seq<char>, Seq<char>)>::empty(),
    {
        let r = HeaderCollection { pairs: Vec::new() };
        proof {
            assert(r@ =~= Seq::<(Seq<char>, Seq<char>)>::empty());
        }
        r
    }

    /// Appends a pair; pairs already present under the same name stay,
    /// so a name may end up multi-valued.
    pub fn insert(&mut self, name: String, value: String)
        ensures
            final(self)@ == old(self)@.push((name@, value@)),
    {
        let ghost gname = name@;
        let ghost gvalue = value@;
        self.pairs.push((name, value));
        proof {
            assert(self@ =~= old(self)@.push((gname, gvalue)));
        }
    }

    /// The number of pairs held.
    pub fn len(&self) -> (n: usize)
        ensures
            n == self@.len(),
    {
        self.pairs.len()
    }

    /// The pair at position `i` in insertion order.
    pub fn pair_at(&self, i: usize) -> (r: (&String, &String))
        requires
            i < self@.len(),
        ensures
            (r.0@, r.1@) == self@[i as int],
    {
        (&self.pairs[i].0, &self.pairs[i].1)
    }

    /// Case-insensitive lookup: the first value inserted under a name
    /// that equals `name` up to ASCII case, if any.
    pub fn get<'a>(&'a self, name: &str) -> (r: Option<&'a String>)
        ensures
            match r {
                Some(v) => get_spec(self@, name@) == Some(v@),
                None => get_spec(self@, name@) is None,
            },
    {
        let n = self.pairs.len();
        let mut i: usize = 0;
        proof {
            assert(self@.skip(0) =~= self@);
        }
        while i < n
            invariant
                i <= n,
                n == self@.len(),
                get_spec(self@, name@) == get_spec(self@.skip(i as int), name@),
            decreases n - i,
        {
            proof {
                assert(self@.skip(i as int).first() == self@[i as int]);
                assert(self@.skip(i as int).drop_first() =~= self@.skip(i as int + 1));
            }
            if name_eq(self.pairs[i].0.as_str(), name) {
                return Some(&self.pairs[i].1);
            }
            i = i + 1;
        }
        proof {
            assert(self@.skip(n as int) =~= Seq::<(Seq<char>, Seq<char>)>::empty());
        }
        None
    }

    /// Every value inserted under a name that equals `name` up to ASCII
    /// case, in insertion order.
    pub fn get_all(&self, name: &str) -> (r: Vec<String>)
        ensures
            r@.map_values(|v: String| v@) == get_all_spec(self@, name@),
    {
        let n = self.pairs.len();
        let mut r: Vec<String> = Vec::new();
        let mut i: usize = 0;
        proof {
            assert(self@.skip(0) =~= self@);
            assert(r@.map_values(|v: String| v@) =~= Seq::<Seq<char>>::empty());
        }
        while i < n
            invariant
                i <= n,
                n == self@.len(),
                get_all_spec(self@, name@) == r@.map_values(|v: String| v@) + get_all_spec(
                    self@.skip(i as int),
                    name@,
                ),
            decreases n - i,
        {
            proof {
                assert(self@.skip(i as int).first() == self@[i as int]);
                assert(self@.skip(i as int).drop_first() =~= self@.skip(i as int + 1));
            }
            let ghost prev = r@.map_values(|v: String| v@);
            if name_eq(self.pairs[i].0.as_str(), name) {
                r.push(self.pairs[i].1.clone());
                proof {
                    assert(r@.map_values(|v: String| v@) =~= prev.push(self@[i as int].1));
                    assert(prev + (seq![self@[i as int].1] + get_all_spec(
                        self@.skip(i as int + 1),
                        name@,
                    )) =~= prev.push(self@[i as int].1) + get_all_spec(
                        self@.skip(i as int + 1),
                        name@,
                    ));
                }
            }
            i = i + 1;
        }
        proof {
            assert(self@.skip(n as int) =~= Seq::<(Seq<char>, Seq<char>)>::empty());
            assert(r@.map_values(|v: String| v@) + Seq::<Seq<char>>::empty() =~= r@.map_values(
                |v: String| v@,
            ));
        }
        r
    }

    /// All pairs, in insertion order, as owned strings; a fresh sequence
    /// on every call, so iteration always restarts from the first pair.
    pub fn iterate(&self) -> (r: Vec<(String, String)>)
        ensures
            r@.map_values(|p: (String, String)| (p.0@, p.1@)) == self@,
    {
        let n = self.pairs.len();
        let mut r: Vec<(String, String)> = Vec::new();
        let mut i: usize = 0;
        while i < n
            invariant
                i <= n,
                n == self@.len(),
                r@.len() == i,
                forall|k: int|
                    0 <= k < i ==> (#[trigger] r@[k].0@, r@[k].1@) == self@[k],
            decreases n - i,
        {
            r.push((self.pairs[i].0.clone(), self.pairs[i].1.clone()));
            i = i + 1;
        }
        proof {
            assert(r@.map_values(|p: (String, String)| (p.0@, p.1@)) =~= self@);
        }
        r
    }
}

/// Header lookup sees names only up to ASCII case: names that lower-case
/// to the same string are looked up to the same result.
pub proof fn lemma_get_case_insensitive(
    pairs: Seq<(Seq<char>, Seq<char>)>,
    n1: Seq<char>,
    n2: Seq<char>,
)
    requires
        lower(n1) == lower(n2),
    ensures
        get_spec(pairs, n1) == get_spec(pairs, n2),
    decreases pairs.len(),
{
    if pairs.len() > 0 {
        lemma_get_case_insensitive(pairs.drop_first(), n1, n2);
    }
}

/// Single-name lookup agrees with all-matches lookup: it returns the
/// first of the matching values when there is one, and nothing otherwise.
pub proof fn lemma_get_is_first_of_get_all(pairs: Seq<(Seq<char>, Seq<char>)>, name: Seq<char>)
    ensures
        get_spec(pairs, name) == (if get_all_spec(pairs, name).len() > 0 {
            Some(get_all_spec(pairs, name).first())
        } else {
            None::<Seq<char>>
        }),
    decreases pairs.len(),
{
    if pairs.len() > 0 {
        lemma_get_is_first_of_get_all(pairs.drop_first(), name);
    }
}

/// Appending a pair never disturbs an existing lookup: a name that was
/// already resolvable resolves to the same (first) value afterwards, and
/// one that was not resolves to the new value exactly when the new name
/// matches it up to ASCII case.
pub proof fn lemma_get_push(
    pairs: Seq<(Seq<char>, Seq<char>)>,
    name: Seq<char>,
    value: Seq<char>,
    n: Seq<char>,
)
    ensures
        get_spec(pairs.push((name, value)), n) == (if get_spec(pairs, n) is Some {
            get_spec(pairs, n)
        } else if lower(name) == lower(n) {
            Some(value)
        } else {
            None
        }),
    decreases pairs.len(),
{
    if pairs.len() == 0 {
        assert(pairs.push((name, value)).first() == (name, value));
        assert(pairs.push((name, value)).drop_first() =~= Seq::<(Seq<char>, Seq<char>)>::empty());
    } else {
        assert(pairs.push((name, value)).first() == pairs.first());
        assert(pairs.push((name, value)).drop_first() =~= pairs.drop_first().push((name, value)));
        lemma_get_push(pairs.drop_first(), name, value, n);
    }
}

} // verus!
