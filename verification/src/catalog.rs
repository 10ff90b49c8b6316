//! The candidate catalog: de-duplicating and sorting the discovered
//! executable names.

use vstd::prelude::*;

verus! {

/// Plain lexicographic order on byte sequences, as the standard string order
/// compares names.
pub open spec fn lex_bytes_le(a: Seq<u8>, b: Seq<u8>) -> bool
    decreases a.len(),
{
    if a.len() == 0 {
        true
    } else if b.len() == 0 {
        false
    } else if a[0] == b[0] {
        lex_bytes_le(a.drop_first(), b.drop_first())
    } else {
        a[0] < b[0]
    }
}

/// Name order: lexicographic over the UTF-8 bytes.
pub open spec fn name_le(a: Seq<char>, b: Seq<char>) -> bool {
    lex_bytes_le(vstd::utf8::encode_utf8(a), vstd::utf8::encode_utf8(b))
}

/// Some element of the list views as `n`.
pub open spec fn has_name(v: Seq<String>, n: Seq<char>) -> bool {
    exists|i: int| 0 <= i < v.len() && (#[trigger] v[i])@ == n
}

/// Relies on `<[String]>::sort` (through `Vec::sort`): sorts in place by the
/// `Ord` order of `String`, which the standard library documents as
/// lexicographic over bytes, keeping exactly the same elements.
#[verifier::external_body]
fn sort_strings(v: &mut Vec<String>)
    ensures
        final(v)@.map_values(|s: String| s@).to_multiset() == old(v)@.map_values(
            |s: String| s@,
        ).to_multiset(),
        vstd::relations::sorted_by(
            final(v)@.map_values(|s: String| s@),
            |a: Seq<char>, b: Seq<char>| name_le(a, b),
        ),
{
    v.sort();
}

/// Keeps the first occurrence of each name.
fn dedup_names(names: Vec<String>) -> (r: Vec<String>)
    ensures
        forall|i: int, j: int| 0 <= i < j < r@.len() ==> (#[trigger] r@[i])@ != (#[trigger] r@[j])@,
        forall|n: Seq<char>| #[trigger] has_name(names@, n) <==> has_name(r@, n),
{
    let mut r: Vec<String> = Vec::new();
    let mut i: usize = 0;
    while i < names.len()
        invariant
            i <= names@.len(),
            forall|a: int, b: int| 0 <= a < b < r@.len() ==> (#[trigger] r@[a])@ != (
            #[trigger] r@[b])@,
            forall|n: Seq<char>|
                #[trigger] has_name(names@.subrange(0, i as int), n) <==> has_name(r@, n),
        decreases names@.len() - i,
    {
        let name = &names[i];
        let mut seen = false;
        let mut j: usize = 0;
        while j < r.len()
            invariant
                j <= r@.len(),
                seen <==> exists|a: int| 0 <= a < j && (#[trigger] r@[a])@ == name@,
            decreases r@.len() - j,
        {
            if r[j].eq(name) {
                proof {
                    assert(r@[j as int]@ == name@);
                }
                seen = true;
            }
            j = j + 1;
        }
        let ghost rpre = r@;
        if !seen {
            r.push(name.clone());
        }
        i = i + 1;
        proof {
            let pre = names@.subrange(0, i - 1);
            let cur = names@.subrange(0, i as int);
            assert(name@ == names@[i - 1]@);
            assert(forall|n: Seq<char>| #[trigger] has_name(pre, n) <==> has_name(rpre, n));
            assert forall|n: Seq<char>|
                #[trigger] has_name(cur, n) <==> has_name(r@, n) by {
                if has_name(cur, n) {
                    let a = choose|a: int| 0 <= a < cur.len() && (#[trigger] cur[a])@ == n;
                    if a < i - 1 {
                        assert(pre[a]@ == n);
                        assert(has_name(pre, n));
                        let b = choose|b: int| 0 <= b < rpre.len() && (#[trigger] rpre[b])@ == n;
                        assert(r@[b]@ == n);
                        assert(has_name(r@, n));
                    } else {
                        assert(cur[i - 1]@ == n);
                        assert(name@ == n);
                        if seen {
                            let b = choose|b: int|
                                0 <= b < rpre.len() && (#[trigger] rpre[b])@ == name@;
                            assert(r@[b]@ == n);
                            assert(has_name(r@, n));
                        } else {
                            assert(r@[r@.len() - 1]@ == n);
                            assert(has_name(r@, n));
                        }
                    }
                }
                if has_name(r@, n) {
                    let a = choose|a: int| 0 <= a < r@.len() && (#[trigger] r@[a])@ == n;
                    if a < rpre.len() {
                        assert(rpre[a]@ == n);
                        assert(has_name(rpre, n));
                        assert(has_name(pre, n));
                        let b = choose|b: int| 0 <= b < pre.len() && (#[trigger] pre[b])@ == n;
                        assert(cur[b]@ == n);
                        assert(has_name(cur, n));
                    } else {
                        assert(r@[a]@ == name@);
                        assert(cur[i - 1]@ == n);
                        assert(has_name(cur, n));
                    }
                }
            }
        }
    }
    proof {
        assert(names@.subrange(0, names@.len() as int) =~= names@);
    }
    r
}

/// Builds the catalog from discovered names: duplicates dropped, the rest
/// sorted in the standard string order.
pub fn build_catalog(names: Vec<String>) -> (r: Vec<String>)
    ensures
        forall|i: int, j: int| 0 <= i < j < r@.len() ==> (#[trigger] r@[i])@ != (#[trigger] r@[j])@,
        forall|n: Seq<char>| #[trigger] has_name(names@, n) <==> has_name(r@, n),
        vstd::relations::sorted_by(
            r@.map_values(|s: String| s@),
            |a: Seq<char>, b: Seq<char>| name_le(a, b),
        ),
{
    broadcast use vstd::seq_lib::group_to_multiset_ensures;

    let mut r = dedup_names(names);
    let ghost deduped = r@;
    sort_strings(&mut r);
    proof {
        let dv = deduped.map_values(|s: String| s@);
        let rv = r@.map_values(|s: String| s@);
        dv.to_multiset_ensures();
        rv.to_multiset_ensures();
        assert forall|a: int, b: int|
            0 <= a < b < r@.len() implies (#[trigger] r@[a])@ != (#[trigger] r@[b])@ by {
            if r@[a]@ == r@[b]@ {
                assert(rv[a] == rv[b]);
                lemma_dup_count(rv, a, b);
                assert(rv.to_multiset().count(rv[a]) >= 2);
                lemma_unique_count(dv, rv[a]);
            }
        }
        assert forall|n: Seq<char>|
            #[trigger] has_name(deduped, n) <==> has_name(r@, n) by {
            if has_name(deduped, n) {
                let i = choose|i: int| 0 <= i < deduped.len() && (#[trigger] deduped[i])@ == n;
                assert(dv[i] == n);
                assert(dv.contains(n));
                assert(dv.to_multiset().count(n) > 0);
                assert(rv.contains(n));
                let j = choose|j: int| 0 <= j < rv.len() && rv[j] == n;
                assert(r@[j]@ == n);
                assert(has_name(r@, n));
            }
            if has_name(r@, n) {
                let i = choose|i: int| 0 <= i < r@.len() && (#[trigger] r@[i])@ == n;
                assert(rv[i] == n);
                assert(rv.contains(n));
                assert(rv.to_multiset().count(n) > 0);
                assert(dv.contains(n));
                let j = choose|j: int| 0 <= j < dv.len() && dv[j] == n;
                assert(deduped[j]@ == n);
                assert(has_name(deduped, n));
            }
        }
    }
    r
}

proof fn lemma_dup_count<A>(s: Seq<A>, a: int, b: int)
    requires
        0 <= a < b < s.len(),
        s[a] == s[b],
    ensures
        s.to_multiset().count(s[a]) >= 2,
{
    broadcast use vstd::seq_lib::group_to_multiset_ensures;

    s.to_multiset_ensures();
    let s1 = s.remove(b);
    s1.to_multiset_ensures();
    assert(s.to_multiset() =~= s1.to_multiset().insert(s[b]));
    assert(s1[a] == s[a]);
    assert(s1.contains(s[a]));
    assert(s1.to_multiset().count(s[a]) > 0);
    assert(s.to_multiset().count(s[a]) == s1.to_multiset().insert(s[b]).count(s[a]));
}

proof fn lemma_unique_count(s: Seq<Seq<char>>, n: Seq<char>)
    requires
        forall|i: int, j: int| 0 <= i < j < s.len() ==> #[trigger] s[i] != #[trigger] s[j],
    ensures
        s.to_multiset().count(n) <= 1,
{
    s.lemma_multiset_has_no_duplicates();
    broadcast use vstd::seq_lib::group_to_multiset_ensures;

    s.to_multiset_ensures();
    if s.to_multiset().count(n) > 0 {
        assert(s.to_multiset().contains(n));
    }
}

} // verus!
