//! Properties: the flattened name/value pairs available for substitution.

use vstd::prelude::*;

verus! {

/// A single name/value pair supplied by the caller. Pairs are gathered
/// into a flat list before substitution; when two pairs share a name,
/// the later-supplied one wins.
pub struct Property {
    pub name: String,
    pub value: String,
}

/// The value a list of properties gives to `name`: the list is searched
/// from the most recently supplied pair backwards, so a later pair with
/// the same name shadows an earlier one.
pub open spec fn lookup_spec(props: Seq<Property>, name: Seq<char>) -> Option<Seq<char>>
    decreases props.len(),
{
    if props.len() == 0 {
        None
    } else if props.last().name@ == name {
        Some(props.last().value@)
    } else {
        lookup_spec(props.drop_last(), name)
    }
}

/// Character-for-character equality of two string slices.
pub fn str_eq(a: &str, b: &str) -> (r: bool)
    ensures
        r == (a@ == b@),
{
    let n = a.unicode_len();
    let m = b.unicode_len();
    if n != m {
        return false;
    }
    let mut i: usize = 0;
    while i < n
        invariant
            n == a@.len(),
            n == b@.len(),
            i <= n,
            forall|k: int| 0 <= k < i ==> a@[k] == b@[k],
        decreases n - i,
    {
        if a.get_char(i) != b.get_char(i) {
            return false;
        }
        i = i + 1;
    }
    proof {
        assert(a@ =~= b@);
    }
    true
}

/// Looks `name` up among `props`, the latest matching pair winning.
pub fn lookup<'a>(props: &'a Vec<Property>, name: &str) -> (r: Option<&'a String>)
    ensures
        match r {
            Some(v) => lookup_spec(props@, name@) == Some(v@),
            None => lookup_spec(props@, name@) is None,
        },
{
    let mut i: usize = props.len();
    proof {
        assert(props@.take(props@.len() as int) =~= props@);
    }
    while i > 0
        invariant
            i <= props@.len(),
            lookup_spec(props@, name@) == lookup_spec(props@.take(i as int), name@),
        decreases i,
    {
        i = i - 1;
        proof {
            assert(props@.take((i + 1) as int).last() == props@[i as int]);
            assert(props@.take((i + 1) as int).drop_last() =~= props@.take(i as int));
        }
        if str_eq(props[i].name.as_str(), name) {
            return Some(&props[i].value);
        }
    }
    None
}

} // verus!
