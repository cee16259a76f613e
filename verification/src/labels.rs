use vstd::prelude::*;
use vstd::relations::{sorted_by, total_ordering};
use vstd::seq_lib::{lemma_multiset_commutative, lemma_sorted_unique};
use vstd::slice::slice_index_get;
use vstd::string::StringSliceAdditionalSpecFns;

verus! {

// Labels are static strings; two labels are the same label exactly when the
// UTF-8 encodings of their characters are the same byte sequence.  The
// canonical order used at commit time is the byte-lexicographic order of
// those encodings, which is also how Rust orders `str` values.

/// Byte-lexicographic order on byte sequences.
pub open spec fn lex_le(a: Seq<u8>, b: Seq<u8>) -> bool
    decreases a.len(),
{
    if a.len() == 0 {
        true
    } else if b.len() == 0 {
        false
    } else if a[0] == b[0] {
        lex_le(a.drop_first(), b.drop_first())
    } else {
        a[0] < b[0]
    }
}

/// The byte-lexicographic order as a function value, for `sort_by`.
pub open spec fn byte_leq() -> spec_fn(Seq<u8>, Seq<u8>) -> bool {
    |a: Seq<u8>, b: Seq<u8>| lex_le(a, b)
}

/// The UTF-8 byte encoding of each label in a sequence of labels.
pub open spec fn views(s: Seq<&'static str>) -> Seq<Seq<u8>> {
    Seq::new(s.len(), |i: int| s[i].spec_bytes())
}

/// Whether a sequence of byte strings contains the same byte string twice.
pub open spec fn has_dup(s: Seq<Seq<u8>>) -> bool {
    exists|i: int, j: int| 0 <= i < j < s.len() && s[i] == s[j]
}

/// Index of the first occurrence of `k` in `s`.
pub open spec fn first_index(s: Seq<Seq<u8>>, k: Seq<u8>) -> int
    decreases s.len(),
{
    if s.len() == 0 {
        0
    } else if s[0] == k {
        0
    } else {
        1 + first_index(s.drop_first(), k)
    }
}

pub proof fn lemma_first_index(s: Seq<Seq<u8>>, k: Seq<u8>)
    requires
        s.contains(k),
    ensures
        0 <= first_index(s, k) < s.len(),
        s[first_index(s, k)] == k,
        forall|m: int| 0 <= m < first_index(s, k) ==> s[m] != k,
    decreases s.len(),
{
    if s.len() > 0 && s[0] != k {
        assert(s.drop_first().contains(k)) by {
            let w = choose|w: int| 0 <= w < s.len() && s[w] == k;
            assert(s.drop_first()[w - 1] == k);
        }
        lemma_first_index(s.drop_first(), k);
        assert forall|m: int| 0 <= m < first_index(s, k) implies s[m] != k by {
            if m > 0 {
                assert(s.drop_first()[m - 1] == s[m]);
            }
        }
    }
}

/// In a duplicate-free sequence, every element is its own first occurrence.
pub proof fn lemma_first_index_self(s: Seq<Seq<u8>>, i: int)
    requires
        !has_dup(s),
        0 <= i < s.len(),
    ensures
        first_index(s, s[i]) == i,
{
    assert(s.contains(s[i]));
    lemma_first_index(s, s[i]);
    let j = first_index(s, s[i]);
    if j < i {
        assert(s[j] == s[i]);
        assert(has_dup(s));
    }
}

/// Rearranging a sequence of byte strings neither creates nor removes
/// duplicates.
pub proof fn lemma_no_dup_permutation(s1: Seq<Seq<u8>>, s2: Seq<Seq<u8>>)
    requires
        s1.to_multiset() == s2.to_multiset(),
        !has_dup(s1),
    ensures
        !has_dup(s2),
{
    assert(s1.no_duplicates()) by {
        assert forall|i: int, j: int|
            (0 <= i < s1.len() && 0 <= j < s1.len() && i != j) implies s1[i] != s1[j] by {
            if i < j {
                assert(!(0 <= i < j < s1.len() && s1[i] == s1[j]));
            } else {
                assert(!(0 <= j < i < s1.len() && s1[j] == s1[i]));
            }
        }
    }
    s1.lemma_multiset_has_no_duplicates();
    s2.lemma_multiset_has_no_duplicates_conv();
    if has_dup(s2) {
        let (i, j) = choose|i: int, j: int| 0 <= i < j < s2.len() && s2[i] == s2[j];
        assert(false);
    }
}

proof fn lemma_lex_le_refl(a: Seq<u8>)
    ensures
        lex_le(a, a),
    decreases a.len(),
{
    if a.len() > 0 {
        lemma_lex_le_refl(a.drop_first());
    }
}

proof fn lemma_lex_le_total(a: Seq<u8>, b: Seq<u8>)
    ensures
        lex_le(a, b) || lex_le(b, a),
    decreases a.len(),
{
    if a.len() > 0 && b.len() > 0 && a[0] == b[0] {
        lemma_lex_le_total(a.drop_first(), b.drop_first());
    }
}

proof fn lemma_lex_le_antisym(a: Seq<u8>, b: Seq<u8>)
    requires
        lex_le(a, b),
        lex_le(b, a),
    ensures
        a == b,
    decreases a.len(),
{
    if a.len() == 0 {
        assert(a =~= b);
    } else if b.len() > 0 && a[0] == b[0] {
        lemma_lex_le_antisym(a.drop_first(), b.drop_first());
        assert forall|i: int| 0 <= i < a.len() implies a[i] == b[i] by {
            if i > 0 {
                assert(a.drop_first()[i - 1] == b.drop_first()[i - 1]);
            }
        }
        assert(a =~= b);
    } else {
        assert(false);
    }
}

proof fn lemma_lex_le_trans(a: Seq<u8>, b: Seq<u8>, c: Seq<u8>)
    requires
        lex_le(a, b),
        lex_le(b, c),
    ensures
        lex_le(a, c),
    decreases a.len(),
{
    if a.len() > 0 && b.len() > 0 && c.len() > 0 && a[0] == b[0] && b[0] == c[0] {
        lemma_lex_le_trans(a.drop_first(), b.drop_first(), c.drop_first());
    }
}

/// The byte-lexicographic order is a total order, so sorting by it yields
/// one canonical arrangement of any collection of byte strings.
pub proof fn lemma_byte_leq_total_ordering()
    ensures
        total_ordering(byte_leq()),
{
    let leq = byte_leq();
    assert forall|x: Seq<u8>| #[trigger] leq(x, x) by {
        lemma_lex_le_refl(x);
    }
    assert forall|x: Seq<u8>, y: Seq<u8>| #[trigger] leq(x, y) && #[trigger] leq(y, x) implies x
        == y by {
        lemma_lex_le_antisym(x, y);
    }
    assert forall|x: Seq<u8>, y: Seq<u8>, z: Seq<u8>|
        #[trigger] leq(x, y) && #[trigger] leq(y, z) implies leq(x, z) by {
        lemma_lex_le_trans(x, y, z);
    }
    assert forall|x: Seq<u8>, y: Seq<u8>| #[trigger] leq(x, y) || #[trigger] leq(y, x) by {
        lemma_lex_le_total(x, y);
    }
}

/// Two sequences with the same elements sort to the same canonical sequence.
pub proof fn lemma_sort_canonical(s1: Seq<Seq<u8>>, s2: Seq<Seq<u8>>)
    requires
        s1.to_multiset() == s2.to_multiset(),
    ensures
        s1.sort_by(byte_leq()) == s2.sort_by(byte_leq()),
{
    lemma_byte_leq_total_ordering();
    s1.lemma_sort_by_ensures(byte_leq());
    s2.lemma_sort_by_ensures(byte_leq());
    lemma_sorted_unique(s1.sort_by(byte_leq()), s2.sort_by(byte_leq()), byte_leq());
}

proof fn lemma_to_multiset_insert(s: Seq<Seq<u8>>, i: int, a: Seq<u8>)
    requires
        0 <= i <= s.len(),
    ensures
        s.insert(i, a).to_multiset() == s.to_multiset().insert(a),
{
    broadcast use vstd::seq_lib::group_to_multiset_ensures;
    broadcast use vstd::multiset::group_multiset_axioms;

    let left = s.subrange(0, i);
    let right = s.subrange(i, s.len() as int);
    lemma_multiset_commutative(left.push(a), right);
    lemma_multiset_commutative(left, right);
    assert(left + right =~= s);
    assert(left.push(a).to_multiset() =~= left.to_multiset().insert(a));
    assert(left.to_multiset().insert(a).add(right.to_multiset()) =~= left.to_multiset().add(
        right.to_multiset(),
    ).insert(a));
    assert(s.insert(i, a).to_multiset() =~= s.to_multiset().insert(a));
}

/// Compare two labels by the byte-lexicographic order of their UTF-8
/// encodings; this is the order in which inputs are committed.
pub(crate) fn str_bytes_le(a: &str, b: &str) -> (r: bool)
    ensures
        r == lex_le(a.spec_bytes(), b.spec_bytes()),
{
    let ab = a.as_bytes();
    let bb = b.as_bytes();
    let mut i: usize = 0;
    proof {
        assert(ab@.skip(0) =~= ab@);
        assert(bb@.skip(0) =~= bb@);
    }
    while i < ab.len() && i < bb.len()
        invariant
            ab@ == a.spec_bytes(),
            bb@ == b.spec_bytes(),
            0 <= i <= ab@.len(),
            0 <= i <= bb@.len(),
            lex_le(a.spec_bytes(), b.spec_bytes()) == lex_le(
                ab@.skip(i as int),
                bb@.skip(i as int),
            ),
        decreases ab@.len() - i,
    {
        let x = *slice_index_get(ab, i);
        let y = *slice_index_get(bb, i);
        if x != y {
            return x < y;
        }
        proof {
            assert(ab@.skip(i as int).drop_first() =~= ab@.skip(i as int + 1));
            assert(bb@.skip(i as int).drop_first() =~= bb@.skip(i as int + 1));
        }
        i = i + 1;
    }
    ab.len() <= bb.len()
}

/// Whether two labels have the same byte encoding.
pub(crate) fn str_bytes_eq(a: &str, b: &str) -> (r: bool)
    ensures
        r == (a.spec_bytes() == b.spec_bytes()),
{
    let ab = a.as_bytes();
    let bb = b.as_bytes();
    if ab.len() != bb.len() {
        return false;
    }
    let mut i: usize = 0;
    while i < ab.len()
        invariant
            ab@ == a.spec_bytes(),
            bb@ == b.spec_bytes(),
            ab@.len() == bb@.len(),
            0 <= i <= ab@.len(),
            forall|k: int| 0 <= k < i ==> ab@[k] == bb@[k],
        decreases ab@.len() - i,
    {
        let x = *slice_index_get(ab, i);
        let y = *slice_index_get(bb, i);
        if x != y {
            return false;
        }
        i = i + 1;
    }
    proof {
        assert(a.spec_bytes() =~= b.spec_bytes());
    }
    true
}

/// Whether no label occurs twice, judged by byte encoding.
pub(crate) fn vector_is_distinct(elts: &Vec<&'static str>) -> (r: bool)
    ensures
        r == !has_dup(views(elts@)),
{
    let n = elts.len();
    let mut i: usize = 0;
    while i < n
        invariant
            n == elts@.len(),
            0 <= i <= n,
            forall|k: int, l: int| 0 <= k < l < n && k < i ==> views(elts@)[k] != views(elts@)[l],
        decreases n - i,
    {
        let mut j: usize = i + 1;
        while j < n
            invariant
                n == elts@.len(),
                0 <= i < n,
                i < j <= n,
                forall|l: int| i < l < j ==> views(elts@)[i as int] != views(elts@)[l],
            decreases n - j,
        {
            if str_bytes_eq(elts[i], elts[j]) {
                proof {
                    assert(views(elts@)[i as int] == views(elts@)[j as int]);
                }
                return false;
            }
            j = j + 1;
        }
        i = i + 1;
    }
    true
}

/// Whether the byte encoding of `l` occurs among the labels of `v`.
pub(crate) fn contains_label(v: &Vec<&'static str>, l: &str) -> (r: bool)
    ensures
        r == views(v@).contains(l.spec_bytes()),
{
    let n = v.len();
    let mut i: usize = 0;
    while i < n
        invariant
            n == v@.len(),
            0 <= i <= n,
            forall|k: int| 0 <= k < i ==> views(v@)[k] != l.spec_bytes(),
        decreases n - i,
    {
        if str_bytes_eq(v[i], l) {
            proof {
                assert(views(v@)[i as int] == l.spec_bytes());
            }
            return true;
        }
        i = i + 1;
    }
    proof {
        if views(v@).contains(l.spec_bytes()) {
            let w = choose|w: int| 0 <= w < views(v@).len() && views(v@)[w] == l.spec_bytes();
            assert(false);
        }
    }
    false
}

/// Index of the first label of `v` whose byte encoding is that of `l`.
pub(crate) fn index_of_label(v: &Vec<&'static str>, l: &str) -> (r: usize)
    requires
        views(v@).contains(l.spec_bytes()),
    ensures
        r == first_index(views(v@), l.spec_bytes()),
        0 <= r < v@.len(),
        views(v@)[r as int] == l.spec_bytes(),
{
    let n = v.len();
    let mut i: usize = 0;
    proof {
        lemma_first_index(views(v@), l.spec_bytes());
    }
    while i < n
        invariant
            n == v@.len(),
            0 <= i <= n,
            views(v@).contains(l.spec_bytes()),
            first_index(views(v@), l.spec_bytes()) >= i,
            forall|k: int| 0 <= k < i ==> views(v@)[k] != l.spec_bytes(),
        decreases n - i,
    {
        if str_bytes_eq(v[i], l) {
            proof {
                assert(views(v@)[i as int] == l.spec_bytes());
                lemma_first_index(views(v@), l.spec_bytes());
            }
            return i;
        }
        proof {
            lemma_first_index(views(v@), l.spec_bytes());
        }
        i = i + 1;
    }
    proof {
        lemma_first_index(views(v@), l.spec_bytes());
        assert(false);
    }
    0
}

/// Copy a borrowed slice of labels into an owned vector.
pub(crate) fn to_label_vec(s: &[&'static str]) -> (r: Vec<&'static str>)
    ensures
        r@ == s@,
{
    let n = s.len();
    let mut out: Vec<&'static str> = Vec::new();
    let mut i: usize = 0;
    while i < n
        invariant
            n == s@.len(),
            0 <= i <= n,
            out@ == s@.take(i as int),
        decreases n - i,
    {
        out.push(*slice_index_get(s, i));
        proof {
            assert(s@.take(i as int).push(s@[i as int]) =~= s@.take(i as int + 1));
        }
        i = i + 1;
    }
    proof {
        assert(s@.take(n as int) =~= s@);
    }
    out
}

/// Sort labels into the canonical byte-lexicographic order.
pub(crate) fn sort_labels(labels: &Vec<&'static str>) -> (r: Vec<&'static str>)
    ensures
        views(r@) == views(labels@).sort_by(byte_leq()),
        r@.len() == labels@.len(),
{
    let n = labels.len();
    let mut out: Vec<&'static str> = Vec::new();
    let mut i: usize = 0;
    proof {
        assert(views(out@) =~= views(labels@.take(0int)));
    }
    while i < n
        invariant
            n == labels@.len(),
            0 <= i <= n,
            out@.len() == i,
            sorted_by(views(out@), byte_leq()),
            views(out@).to_multiset() == views(labels@.take(i as int)).to_multiset(),
        decreases n - i,
    {
        let l = labels[i];
        let ghost pre = out@;
        let mut j: usize = 0;
        while j < out.len() && str_bytes_le(out[j], l)
            invariant
                out@ == pre,
                0 <= j <= out@.len(),
                forall|k: int| 0 <= k < j ==> lex_le(views(out@)[k], l.spec_bytes()),
            decreases out@.len() - j,
        {
            j = j + 1;
        }
        out.insert(j, l);
        proof {
            assert(views(out@) =~= views(pre).insert(j as int, l.spec_bytes()));
            assert(sorted_by(views(out@), byte_leq())) by {
                views(pre).insert_ensures(j as int, l.spec_bytes());
                if (j as int) < views(pre).len() {
                    lemma_lex_le_total(views(pre)[j as int], l.spec_bytes());
                }
                assert forall|p: int, q: int|
                    0 <= p < q < views(out@).len() implies #[trigger] byte_leq()(
                    views(out@)[p],
                    views(out@)[q],
                ) by {
                    let s = views(out@);
                    if p < j && q == j {
                        assert(s[p] == views(pre)[p]);
                    } else if p == j && q > j {
                        assert(s[q] == views(pre)[q - 1]);
                        if q - 1 > j {
                            assert(byte_leq()(views(pre)[j as int], views(pre)[q - 1]));
                            lemma_lex_le_trans(
                                l.spec_bytes(),
                                views(pre)[j as int],
                                views(pre)[q - 1],
                            );
                        }
                    } else if p < j && q > j {
                        assert(s[p] == views(pre)[p]);
                        assert(s[q] == views(pre)[q - 1]);
                    } else if p > j && q > j {
                        assert(s[p] == views(pre)[p - 1]);
                        assert(s[q] == views(pre)[q - 1]);
                    }
                }
            }
            lemma_to_multiset_insert(views(pre), j as int, l.spec_bytes());
            assert(views(labels@.take(i as int + 1)) =~= views(labels@.take(i as int)).push(
                labels@[i as int].spec_bytes(),
            ));
            broadcast use vstd::seq_lib::group_to_multiset_ensures;

        }
        i = i + 1;
    }
    proof {
        assert(labels@.take(n as int) =~= labels@);
        lemma_byte_leq_total_ordering();
        views(labels@).lemma_sort_by_ensures(byte_leq());
        lemma_sorted_unique(views(out@), views(labels@).sort_by(byte_leq()), byte_leq());
        assert(views(out@) == views(labels@).sort_by(byte_leq()));
    }
    out
}

} // verus!
