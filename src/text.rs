use vstd::prelude::*;
use vstd::string::StringSliceAdditionalSpecFns;

verus! {

/// The character sequences of a list of strings.
pub open spec fn texts(v: Seq<&str>) -> Seq<Seq<char>> {
    v.map_values(|s: &str| s@)
}

/// Whether two strings hold the same characters, compared by their UTF-8 bytes.
pub fn same_text(a: &str, b: &str) -> (r: bool)
    ensures
        r == (a@ == b@),
{
    let x = a.as_bytes();
    let y = b.as_bytes();
    proof {
        vstd::utf8::encode_utf8_decode_utf8(a@);
        vstd::utf8::encode_utf8_decode_utf8(b@);
    }
    if x.len() != y.len() {
        return false;
    }
    let mut i: usize = 0;
    while i < x.len()
        invariant
            0 <= i <= x@.len(),
            x@.len() == y@.len(),
            x@ == a.spec_bytes(),
            y@ == b.spec_bytes(),
            forall|k: int| 0 <= k < i ==> x@[k] == y@[k],
        decreases x@.len() - i,
    {
        if x[i] != y[i] {
            assert(x@[i as int] != y@[i as int]);
            return false;
        }
        i += 1;
    }
    assert(x@ =~= y@);
    true
}

/// Position of the first string in `v` that holds the same characters as `s`.
pub fn find_text(v: &Vec<&str>, s: &str) -> (r: Option<usize>)
    ensures
        match r {
            Some(j) => j < v@.len() && v@[j as int]@ == s@ && forall|k: int|
                0 <= k < j ==> v@[k]@ != s@,
            None => !texts(v@).contains(s@),
        },
{
    let mut j: usize = 0;
    while j < v.len()
        invariant
            0 <= j <= v@.len(),
            forall|k: int| 0 <= k < j ==> v@[k]@ != s@,
        decreases v@.len() - j,
    {
        if same_text(v[j], s) {
            return Some(j);
        }
        j += 1;
    }
    proof {
        if texts(v@).contains(s@) {
            let k = choose|k: int| 0 <= k < texts(v@).len() && texts(v@)[k] == s@;
            assert(v@[k]@ == s@);
        }
    }
    None
}

/// The character sequences of each ballot of strings.
pub open spec fn ballots(v: Seq<Vec<&str>>) -> Seq<Seq<Seq<char>>> {
    v.map_values(|b: Vec<&str>| texts(b@))
}

/// Whether some string of `v` holds the same characters as `s`.
pub fn contains_text(v: &Vec<&str>, s: &str) -> (r: bool)
    ensures
        r == texts(v@).contains(s@),
{
    match find_text(v, s) {
        Some(j) => {
            assert(texts(v@)[j as int] == s@);
            true
        },
        None => false,
    }
}

} // verus!
