use vstd::prelude::*;

verus! {

/// The characters of `s`, one per element.
pub fn chars_of(s: &str) -> (r: Vec<char>)
    ensures
        r@ == s@,
{
    let mut r: Vec<char> = Vec::new();
    for c in it: s.chars()
        invariant
            r@ == it.seq().take(it.index() as int),
    {
        r.push(c);
    }
    r
}

/// Whether the characters of `a` are those of `b`.
pub fn slice_eq_str(a: &[char], b: &str) -> (r: bool)
    ensures
        r == (a@ == b@),
{
    let bc = chars_of(b);
    if a.len() != bc.len() {
        return false;
    }
    let n = a.len();
    for i in 0..n
        invariant
            n == a@.len(),
            n == bc@.len(),
            bc@ == b@,
            forall|k: int| 0 <= k < i ==> a@[k] == bc@[k],
    {
        if a[i] != bc[i] {
            return false;
        }
    }
    assert(a@ =~= bc@);
    true
}

/// Whether `a` and `b` hold the same characters.
pub fn str_eq(a: &str, b: &str) -> (r: bool)
    ensures
        r == (a@ == b@),
{
    let ac = chars_of(a);
    slice_eq_str(ac.as_slice(), b)
}

/// The text of `endpoint` followed by that of `route`.
pub fn route_url(endpoint: &str, route: &str) -> (r: String)
    ensures
        r@ == endpoint@ + route@,
{
    let mut url = endpoint.to_owned();
    url.append(route);
    url
}

} // verus!
