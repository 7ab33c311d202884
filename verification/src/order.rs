//! The order of strings, and sorted lists of them.
use vstd::prelude::*;

use crate::text;

verus! {

/// Whether one string is not behind another in lexicographic order.
pub open spec fn text_le(a: Seq<char>, b: Seq<char>) -> bool
    decreases a.len(),
{
    if a.len() == 0 {
        true
    } else if b.len() == 0 {
        false
    } else {
        a[0] < b[0] || (a[0] == b[0] && text_le(a.skip(1), b.skip(1)))
    }
}

/// The order compares a string with itself as not behind.
pub proof fn le_reflexive(a: Seq<char>)
    ensures
        text_le(a, a),
    decreases a.len(),
{
    if a.len() > 0 {
        le_reflexive(a.skip(1));
    }
}

/// Of two strings, one is not behind the other.
pub proof fn le_total(a: Seq<char>, b: Seq<char>)
    ensures
        text_le(a, b) || text_le(b, a),
    decreases a.len(),
{
    if a.len() > 0 && b.len() > 0 {
        le_total(a.skip(1), b.skip(1));
    }
}

/// Two strings of which neither is behind the other are the same.
pub proof fn le_antisymmetric(a: Seq<char>, b: Seq<char>)
    requires
        text_le(a, b),
        text_le(b, a),
    ensures
        a == b,
    decreases a.len(),
{
    if a.len() > 0 && b.len() > 0 {
        le_antisymmetric(a.skip(1), b.skip(1));
        assert(a =~= seq![a[0]] + a.skip(1));
        assert(b =~= seq![b[0]] + b.skip(1));
    } else {
        assert(a =~= b);
    }
}

/// The order is transitive.
pub proof fn le_transitive(a: Seq<char>, b: Seq<char>, c: Seq<char>)
    requires
        text_le(a, b),
        text_le(b, c),
    ensures
        text_le(a, c),
    decreases a.len(),
{
    if a.len() > 0 && b.len() > 0 && c.len() > 0 {
        if a[0] == b[0] && b[0] == c[0] {
            le_transitive(a.skip(1), b.skip(1), c.skip(1));
        }
    }
}

proof fn lemma_le_skip(a: Seq<char>, b: Seq<char>, i: int)
    requires
        0 <= i <= a.len(),
        i <= b.len(),
        forall|j: int| 0 <= j < i ==> a[j] == b[j],
    ensures
        text_le(a, b) == text_le(a.skip(i), b.skip(i)),
    decreases i,
{
    if i > 0 {
        let x = a.skip(1);
        let y = b.skip(1);
        assert forall|j: int| 0 <= j < i - 1 implies x[j] == y[j] by {
            assert(a[j + 1] == b[j + 1]);
        }
        lemma_le_skip(x, y, i - 1);
        assert(x.skip(i - 1) =~= a.skip(i));
        assert(y.skip(i - 1) =~= b.skip(i));
        assert(a[0] == b[0]);
    } else {
        assert(a.skip(0) =~= a);
        assert(b.skip(0) =~= b);
    }
}

/// Whether one string is not behind another in lexicographic order.
pub fn not_behind(a: &str, b: &str) -> (r: bool)
    ensures
        r == text_le(a@, b@),
{
    let x = text::chars_of(a);
    let y = text::chars_of(b);
    let mut i: usize = 0;
    while i < x.len() && i < y.len() && x[i] == y[i]
        invariant
            i <= x@.len(),
            i <= y@.len(),
            forall|j: int| 0 <= j < i ==> x@[j] == y@[j],
        decreases x@.len() - i,
    {
        i = i + 1;
    }
    proof {
        lemma_le_skip(a@, b@, i as int);
    }
    if i == x.len() {
        true
    } else if i == y.len() {
        false
    } else {
        x[i] < y[i]
    }
}

/// Whether each string is not behind the later ones.
pub open spec fn sorted(s: Seq<Seq<char>>) -> bool {
    forall|i: int, j: int| 0 <= i < j < s.len() ==> text_le(#[trigger] s[i], #[trigger] s[j])
}

/// Sorts a list of strings.
pub fn sort_texts(v: &Vec<String>) -> (r: Vec<String>)
    ensures
        sorted(text::texts(r@)),
        text::texts(r@).to_multiset() == text::texts(v@).to_multiset(),
{
    let mut out: Vec<String> = Vec::new();
    let mut i: usize = 0;
    assert(text::texts(out@) =~= text::texts(v@).take(0));
    while i < v.len()
        invariant
            i <= v@.len(),
            out@.len() == i,
            sorted(text::texts(out@)),
            text::texts(out@).to_multiset() == text::texts(v@).take(i as int).to_multiset(),
        decreases v@.len() - i,
    {
        let ghost before = text::texts(out@);
        let item = v[i].clone();
        let mut j: usize = 0;
        while j < out.len() && not_behind(out[j].as_str(), item.as_str())
            invariant
                j <= out@.len(),
                before == text::texts(out@),
                forall|k: int| 0 <= k < j ==> text_le(#[trigger] before[k], item@),
            decreases out@.len() - j,
        {
            assert(before[j as int] == out@[j as int]@);
            j = j + 1;
        }
        proof {
            if j < before.len() {
                le_total(before[j as int], item@);
                assert forall|k: int| j <= k < before.len() implies text_le(
                    item@,
                    #[trigger] before[k],
                ) by {
                    if k > j {
                        assert(text_le(before[j as int], before[k]));
                        le_transitive(item@, before[j as int], before[k]);
                    }
                }
            }
        }
        out.insert(j, item);
        proof {
            let after = text::texts(out@);
            assert(after =~= before.insert(j as int, item@));
            assert(sorted(after)) by {
                assert forall|a: int, b: int| 0 <= a < b < after.len() implies text_le(
                    #[trigger] after[a],
                    #[trigger] after[b],
                ) by {
                    if b < j {
                        assert(after[a] == before[a] && after[b] == before[b]);
                    } else if b == j {
                        assert(after[a] == before[a]);
                    } else if a < j {
                        assert(after[a] == before[a] && after[b] == before[b - 1]);
                    } else if a == j {
                        assert(after[b] == before[b - 1]);
                    } else {
                        assert(after[a] == before[a - 1] && after[b] == before[b - 1]);
                    }
                }
            }
            vstd::seq_lib::to_multiset_insert(before, j as int, item@);
            assert(text::texts(v@).take(i + 1) =~= text::texts(v@).take(i as int).push(item@));
            vstd::seq_lib::to_multiset_build(text::texts(v@).take(i as int), item@);
        }
        i = i + 1;
    }
    assert(text::texts(v@).take(i as int) =~= text::texts(v@));
    out
}

/// Sorted lists with the same strings are the same list.
pub proof fn sorted_unique(a: Seq<Seq<char>>, b: Seq<Seq<char>>)
    requires
        sorted(a),
        sorted(b),
        a.to_multiset() == b.to_multiset(),
    ensures
        a == b,
    decreases a.len(),
{
    broadcast use vstd::seq_lib::group_to_multiset_ensures;

    a.to_multiset_ensures();
    b.to_multiset_ensures();
    assert(a.len() == b.len());
    if a.len() > 0 {
        let n = a.len() - 1;
        let x = a[n];
        let y = b[n];
        assert(a.to_multiset().contains(x));
        assert(b.to_multiset().contains(y));
        assert(b.contains(x));
        assert(a.contains(y));
        let i = choose|i: int| 0 <= i < b.len() && b[i] == x;
        let j = choose|j: int| 0 <= j < a.len() && a[j] == y;
        le_reflexive(x);
        le_reflexive(y);
        assert(text_le(x, y));
        assert(text_le(y, x));
        le_antisymmetric(x, y);
        assert(a.remove(n) =~= a.drop_last());
        assert(b.remove(n) =~= b.drop_last());
        vstd::seq_lib::to_multiset_remove(a, n);
        vstd::seq_lib::to_multiset_remove(b, n);
        sorted_unique(a.drop_last(), b.drop_last());
        assert(a =~= a.drop_last().push(x));
        assert(b =~= b.drop_last().push(y));
    } else {
        assert(a =~= b);
    }
}

/// Sorts a list of strings and drops repetitions.
pub fn sorted_distinct(v: &Vec<String>) -> (r: Vec<String>)
    ensures
        sorted(text::texts(r@)),
        text::texts(r@).no_duplicates(),
        forall|s: Seq<char>| #[trigger] text::texts(r@).contains(s) <==> text::texts(v@).contains(s),
{
    let all = sort_texts(v);
    let ghost s = text::texts(all@);
    proof {
        broadcast use vstd::seq_lib::group_to_multiset_ensures;

        assert forall|x: Seq<char>| #[trigger] s.contains(x) <==> text::texts(v@).contains(x) by {
            assert(s.contains(x) <==> s.to_multiset().count(x) > 0);
            assert(text::texts(v@).contains(x) <==> text::texts(v@).to_multiset().count(x) > 0);
        }
    }
    let mut out: Vec<String> = Vec::new();
    let mut i: usize = 0;
    while i < all.len()
        invariant
            i <= all@.len(),
            s == text::texts(all@),
            sorted(s),
            sorted(text::texts(out@)),
            text::texts(out@).no_duplicates(),
            i > 0 ==> out@.len() > 0 && text::texts(out@).last() == s[i - 1],
            i == 0 ==> out@.len() == 0,
            forall|x: Seq<char>| #[trigger]
                text::texts(out@).contains(x) <==> s.take(i as int).contains(x),
        decreases all@.len() - i,
    {
        let ghost before = text::texts(out@);
        let repeated = out.len() > 0 && out[out.len() - 1] == all[i];
        if !repeated {
            out.push(all[i].clone());
        }
        proof {
            let item = s[i as int];
            let after = text::texts(out@);
            assert(s.take(i + 1) =~= s.take(i as int).push(item));
            if repeated {
                assert(before.last() == item);
                assert(before.contains(item));
                assert(after =~= before);
            } else {
                assert(after =~= before.push(item));
                assert forall|j: int| 0 <= j < before.len() implies text_le(
                    #[trigger] before[j],
                    item,
                ) && before[j] != item by {
                    assert(before.contains(before[j]));
                    assert(s.take(i as int).contains(before[j]));
                    let k = choose|k: int| 0 <= k < i && s.take(i as int)[k] == before[j];
                    assert(s[k] == before[j]);
                    assert(text_le(s[k], s[i as int]));
                    if before[j] == item {
                        assert(text_le(item, before.last())) by {
                            if k < i - 1 {
                                assert(text_le(s[k], s[i - 1]));
                            } else {
                                le_reflexive(item);
                            }
                        }
                        assert(text_le(before.last(), item)) by {
                            assert(text_le(s[i - 1], s[i as int]));
                        }
                        le_antisymmetric(item, before.last());
                    }
                }
            }
            let upto = s.take(i + 1);
            assert forall|x: Seq<char>| #[trigger] after.contains(x) <==> upto.contains(x) by {
                if before.contains(x) {
                    let j = choose|j: int| 0 <= j < before.len() && before[j] == x;
                    assert(after[j] == x);
                }
                if s.take(i as int).contains(x) {
                    let j = choose|j: int| 0 <= j < i && s.take(i as int)[j] == x;
                    assert(upto[j] == x);
                }
                assert(upto[i as int] == item);
                if upto.contains(x) && x != item {
                    let j = choose|j: int| 0 <= j < upto.len() && upto[j] == x;
                    assert(s.take(i as int)[j] == x);
                    assert(before.contains(x));
                }
                if after.contains(x) && x != item {
                    let j = choose|j: int| 0 <= j < after.len() && after[j] == x;
                    assert(before[j] == x);
                }
                if x == item {
                    assert(after.last() == item);
                    assert(after[after.len() - 1] == item);
                }
            }
        }
        i = i + 1;
    }
    assert(s.take(i as int) =~= s);
    out
}

} // verus!
