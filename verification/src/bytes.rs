//! Byte strings: comparison and copying, stated over their sequence views.
use vstd::prelude::*;

verus! {

/// Whether two byte slices hold the same bytes.
pub fn same_bytes(a: &[u8], b: &[u8]) -> (r: bool)
    ensures
        r == (a@ == b@),
{
    if a.len() != b.len() {
        return false;
    }
    let mut i: usize = 0;
    while i < a.len()
        invariant
            i <= a@.len(),
            a@.len() == b@.len(),
            forall|j: int| 0 <= j < i ==> a@[j] == b@[j],
        decreases a@.len() - i,
    {
        if a[i] != b[i] {
            return false;
        }
        i = i + 1;
    }
    assert(a@ =~= b@);
    true
}

/// A vector that holds the bytes of a slice.
pub fn to_vec(a: &[u8]) -> (r: Vec<u8>)
    ensures
        r@ == a@,
{
    vstd::slice::slice_to_vec(a)
}

/// The bytes of a fixed-size array as a vector.
pub fn array_to_vec(a: &[u8; 32]) -> (r: Vec<u8>)
    ensures
        r@ == a@,
{
    vstd::slice::slice_to_vec(vstd::array::array_as_slice(a))
}

/// The first 32 bytes of a slice of exactly 32 bytes.
pub fn to_array32(a: &[u8]) -> (r: Option<[u8; 32]>)
    ensures
        r is Some <==> a@.len() == 32,
        r is Some ==> r->0@ == a@,
{
    if a.len() != 32 {
        return None;
    }
    let mut out: [u8; 32] = [0u8; 32];
    let mut i: usize = 0;
    while i < 32
        invariant
            i <= 32,
            a@.len() == 32,
            out@.len() == 32,
            forall|j: int| 0 <= j < i ==> out@[j] == a@[j],
        decreases 32 - i,
    {
        out[i] = a[i];
        i = i + 1;
    }
    assert(out@ =~= a@);
    Some(out)
}

/// The 64 bytes of a slice of exactly 64 bytes.
pub fn to_array64(a: &[u8]) -> (r: Option<[u8; 64]>)
    ensures
        r is Some <==> a@.len() == 64,
        r is Some ==> r->0@ == a@,
{
    if a.len() != 64 {
        return None;
    }
    let mut out: [u8; 64] = [0u8; 64];
    let mut i: usize = 0;
    while i < 64
        invariant
            i <= 64,
            a@.len() == 64,
            out@.len() == 64,
            forall|j: int| 0 <= j < i ==> out@[j] == a@[j],
        decreases 64 - i,
    {
        out[i] = a[i];
        i = i + 1;
    }
    assert(out@ =~= a@);
    Some(out)
}

/// A list of byte strings as the sequence of their contents.
pub open spec fn contents(v: Seq<Vec<u8>>) -> Seq<Seq<u8>> {
    v.map_values(|b: Vec<u8>| b@)
}

/// A copy of a list of byte strings.
pub fn copy_all(v: &Vec<Vec<u8>>) -> (r: Vec<Vec<u8>>)
    ensures
        contents(r@) == contents(v@),
{
    let mut out: Vec<Vec<u8>> = Vec::new();
    let mut i: usize = 0;
    while i < v.len()
        invariant
            i <= v@.len(),
            out@.len() == i,
            forall|j: int| 0 <= j < i ==> (#[trigger] out@[j])@ == v@[j]@,
        decreases v@.len() - i,
    {
        out.push(to_vec(v[i].as_slice()));
        i = i + 1;
    }
    assert(contents(out@) =~= contents(v@));
    out
}

/// Whether a list of byte strings holds the given one.
pub fn contains_bytes(v: &Vec<Vec<u8>>, x: &[u8]) -> (r: bool)
    ensures
        r == contents(v@).contains(x@),
{
    let mut i: usize = 0;
    while i < v.len()
        invariant
            i <= v@.len(),
            forall|j: int| 0 <= j < i ==> contents(v@)[j] != x@,
        decreases v@.len() - i,
    {
        if same_bytes(v[i].as_slice(), x) {
            assert(contents(v@)[i as int] == x@);
            return true;
        }
        i = i + 1;
    }
    false
}

} // verus!
