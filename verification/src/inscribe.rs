use vstd::prelude::*;
use vstd::string::StringSliceAdditionalSpecFns;

use crate::decree::FSInput;
use crate::error::{DecreeErrType, DecreeResult, Error};
use crate::labels::{
    byte_leq, first_index, has_dup, lemma_first_index, lemma_first_index_self, sort_labels,
    str_bytes_eq, vector_is_distinct, views,
};

verus! {

/// Length in bytes of every inscription digest.
pub const INSCRIBE_LENGTH: usize = 64;

/// The `Inscribe` trait is the whole surface a structured value needs in
/// order to enter a Fiat-Shamir transcript as a single input:
///
/// - `get_mark` names the value's domain-separation mark;
/// - `get_inscription` canonicalizes the value into a 64-byte digest;
/// - `get_additional` supplies side data absorbed after all fields, and
///   defaults to none.
pub trait Inscribe {
    fn get_mark(&self) -> &'static str;

    fn get_inscription(&self) -> DecreeResult<FSInput>;

    fn get_additional(&self) -> DecreeResult<FSInput> {
        Ok(Vec::new())
    }
}

#[verifier::external_type_specification]
#[verifier::external_body]
pub struct ExTupleHash(tiny_keccak::TupleHash);

/// The TupleHash-256 digest of a tuple of inputs under a customization
/// string, cut to `len` bytes.  This names the result of tiny_keccak's
/// `TupleHash` (construction via `v256`, one `update` per input, then
/// `finalize`), which is a deterministic function of exactly these three
/// arguments; each input is length-tagged, so the digest separates
/// `("ab", "c")` from `("a", "bc")`.
pub uninterp spec fn tuplehash256(custom: Seq<u8>, inputs: Seq<Seq<u8>>, len: int) -> Seq<u8>;

/// Relies on tiny_keccak's TupleHash::v256: builds the hasher whose state
/// is determined by the customization string alone.
#[verifier::external_body]
fn tuplehash_new(mark: &str) -> tiny_keccak::TupleHash {
    tiny_keccak::TupleHash::v256(mark.as_bytes())
}

/// An incremental TupleHash-256 computation, together with the
/// customization string it was keyed with and the inputs absorbed so far.
pub(crate) struct TupleHasher {
    inner: tiny_keccak::TupleHash,
    custom: Ghost<Seq<u8>>,
    absorbed: Ghost<Seq<Seq<u8>>>,
}

impl TupleHasher {
    /// The customization string this hasher was keyed with.
    pub(crate) closed spec fn custom(&self) -> Seq<u8> {
        self.custom@
    }

    /// The inputs absorbed so far, in order.
    pub(crate) closed spec fn absorbed(&self) -> Seq<Seq<u8>> {
        self.absorbed@
    }

    /// Builds the hasher for a mark, with no inputs absorbed yet.
    pub(crate) fn new(mark: &str) -> (h: TupleHasher)
        ensures
            h.custom() == mark.spec_bytes(),
            h.absorbed() == Seq::<Seq<u8>>::empty(),
    {
        let c: Ghost<Seq<u8>> = Ghost(mark.spec_bytes());
        let a: Ghost<Seq<Seq<u8>>> = Ghost(Seq::empty());
        TupleHasher { inner: tuplehash_new(mark), custom: c, absorbed: a }
    }

    /// Relies on tiny_keccak's TupleHash::update: absorbs `data` as one
    /// length-tagged input.
    #[verifier::external_body]
    pub(crate) fn update(&mut self, data: &Vec<u8>)
        ensures
            final (self).custom() == old(self).custom(),
            final (self).absorbed() == old(self).absorbed().push(data@),
    {
        tiny_keccak::Hasher::update(&mut self.inner, data.as_slice());
    }

    /// Relies on tiny_keccak's TupleHash::finalize: the digest is a
    /// deterministic function of the customization string, the absorbed
    /// inputs, and the output length.
    #[verifier::external_body]
    pub(crate) fn finalize(self, out_len: usize) -> (r: Vec<u8>)
        ensures
            r@ == tuplehash256(self.custom(), self.absorbed(), out_len as int),
            r@.len() == out_len,
    {
        let mut buf = vec![0u8; out_len];
        tiny_keccak::Hasher::finalize(self.inner, buf.as_mut_slice());
        buf
    }
}

/// How one field of a record enters the digest.
pub enum FieldVal {
    /// The canonical byte encoding of a leaf value, absorbed as one input.
    Bytes(Vec<u8>),
    /// A nested record, absorbed through its own 64-byte inscription.
    Nested(Box<Record>),
    /// The field is fully elided: it contributes nothing to the digest.
    Skip,
}

/// One named field: a sort key deciding its hashing position, and how the
/// field is handled.
pub struct Field {
    pub sort_key: &'static str,
    pub value: FieldVal,
}

/// A record-shaped value prepared for inscription: a domain-separation
/// mark, named fields, and additional data absorbed after all fields.
pub struct Record {
    pub mark: &'static str,
    pub fields: Vec<Field>,
    pub additional: Vec<u8>,
}

/// The sort keys of the fields, as byte encodings, in declaration order.
pub open spec fn keys_of(fs: Seq<Field>) -> Seq<Seq<u8>> {
    Seq::new(fs.len(), |i: int| fs[i].sort_key.spec_bytes())
}

/// The canonical hashing order of a record's fields: its sort keys in
/// ascending byte-lexicographic order.
pub open spec fn sorted_keys(fs: Seq<Field>) -> Seq<Seq<u8>> {
    keys_of(fs).sort_by(byte_leq())
}

/// Whether a field's handling is admissible all the way down.
pub open spec fn wf_val(v: FieldVal) -> bool
    decreases v,
{
    match v {
        FieldVal::Nested(r) => wf_record(*r),
        _ => true,
    }
}

/// Whether a record is admissible: no two fields share a sort key, at any
/// nesting level.
pub open spec fn wf_record(r: Record) -> bool
    decreases r,
{
    &&& !has_dup(keys_of(r.fields@))
    &&& forall|i: int| 0 <= i < r.fields@.len() ==> wf_val(#[trigger] r.fields@[i].value)
}

/// The input that the field named `k` contributes to its record's hash:
/// its bytes or its nested digest as a single input, or nothing at all
/// for a skipped field.
pub open spec fn entry_stream(r: Record, k: Seq<u8>) -> Seq<Seq<u8>>
    decreases r, 0int, 0int,
    via entry_stream_decreases
{
    if keys_of(r.fields@).contains(k) {
        match r.fields@[first_index(keys_of(r.fields@), k)].value {
            FieldVal::Bytes(b) => seq![b@],
            FieldVal::Nested(n) => seq![digest_of(*n)],
            FieldVal::Skip => Seq::empty(),
        }
    } else {
        Seq::empty()
    }
}

#[via_fn]
proof fn entry_stream_decreases(r: Record, k: Seq<u8>) {
    if keys_of(r.fields@).contains(k) {
        let i = first_index(keys_of(r.fields@), k);
        lemma_first_index(keys_of(r.fields@), k);
        match r.fields@[i].value {
            FieldVal::Nested(n) => {
                assert(decreases_to!(r => r.fields));
                assert(decreases_to!(r.fields => r.fields[i]));
                assert(decreases_to!(r.fields[i] => *n));
                assert(decreases_to!(r => *n));
            },
            _ => {},
        }
    }
}

/// The inputs contributed by the fields named by `ks`, in that order.
pub open spec fn rec_stream(r: Record, ks: Seq<Seq<u8>>) -> Seq<Seq<u8>>
    decreases r, 1int, ks.len(),
{
    if ks.len() == 0 {
        Seq::empty()
    } else {
        entry_stream(r, ks[0]) + rec_stream(r, ks.drop_first())
    }
}

/// The inscription digest of a record: TupleHash-256 keyed by its mark
/// over the contributions of its fields in canonical sort-key order,
/// followed by its additional data, cut to 64 bytes.
pub open spec fn digest_of(r: Record) -> Seq<u8>
    decreases r, 2int, 0int,
{
    tuplehash256(
        r.mark.spec_bytes(),
        rec_stream(r, sorted_keys(r.fields@)) + seq![r.additional@],
        INSCRIBE_LENGTH as int,
    )
}

proof fn lemma_rec_stream_push(r: Record, ks: Seq<Seq<u8>>, k: Seq<u8>)
    ensures
        rec_stream(r, ks.push(k)) == rec_stream(r, ks) + entry_stream(r, k),
    decreases ks.len(),
{
    if ks.len() == 0 {
        assert(ks.push(k).len() == 1);
        assert(ks.push(k)[0] == k);
        assert(ks.push(k).drop_first() =~= Seq::<Seq<u8>>::empty());
        assert(rec_stream(r, Seq::<Seq<u8>>::empty()) == Seq::<Seq<u8>>::empty());
        assert(rec_stream(r, ks.push(k)) == entry_stream(r, k) + rec_stream(
            r,
            Seq::<Seq<u8>>::empty(),
        ));
        assert(entry_stream(r, k) + Seq::<Seq<u8>>::empty() =~= entry_stream(r, k));
        assert(rec_stream(r, ks) + entry_stream(r, k) =~= entry_stream(r, k));
    } else {
        assert(ks.push(k).drop_first() =~= ks.drop_first().push(k));
        lemma_rec_stream_push(r, ks.drop_first(), k);
        assert(rec_stream(r, ks.push(k)) =~= rec_stream(r, ks) + entry_stream(r, k));
    }
}

proof fn lemma_rec_stream_congruence(r1: Record, r2: Record, ks: Seq<Seq<u8>>)
    requires
        forall|j: int| 0 <= j < ks.len() ==> entry_stream(r1, ks[j]) == entry_stream(r2, ks[j]),
    ensures
        rec_stream(r1, ks) == rec_stream(r2, ks),
    decreases ks.len(),
{
    if ks.len() > 0 {
        assert(entry_stream(r1, ks[0]) == entry_stream(r2, ks[0]));
        assert forall|j: int| 0 <= j < ks.drop_first().len() implies entry_stream(
            r1,
            ks.drop_first()[j],
        ) == entry_stream(r2, ks.drop_first()[j]) by {
            assert(ks.drop_first()[j] == ks[j + 1]);
        }
        lemma_rec_stream_congruence(r1, r2, ks.drop_first());
    }
}

proof fn lemma_rec_stream_remove_empty(r: Record, ks: Seq<Seq<u8>>, p: int)
    requires
        0 <= p < ks.len(),
        entry_stream(r, ks[p]) == Seq::<Seq<u8>>::empty(),
    ensures
        rec_stream(r, ks) == rec_stream(r, ks.remove(p)),
    decreases ks.len(),
{
    if p == 0 {
        assert(ks.remove(0) =~= ks.drop_first());
        assert(Seq::<Seq<u8>>::empty() + rec_stream(r, ks.drop_first()) =~= rec_stream(
            r,
            ks.drop_first(),
        ));
    } else {
        assert(ks.remove(p)[0] == ks[0]);
        assert(ks.remove(p).len() == ks.len() - 1);
        assert(ks.remove(p).drop_first() =~= ks.drop_first().remove(p - 1));
        assert(ks.drop_first()[p - 1] == ks[p]);
        lemma_rec_stream_remove_empty(r, ks.drop_first(), p - 1);
        assert(rec_stream(r, ks) =~= rec_stream(r, ks.remove(p)));
    }
}

/// Law: the inscription digest is invariant under reordering of the field
/// declarations, provided each sort key keeps its field.  Two records with
/// the same mark, the same additional data, and the same keyed fields — in
/// any declaration order — have the same digest.
pub proof fn lemma_digest_field_order(r1: Record, r2: Record)
    requires
        r1.mark.spec_bytes() == r2.mark.spec_bytes(),
        r1.additional@ == r2.additional@,
        !has_dup(keys_of(r1.fields@)),
        keys_of(r1.fields@).to_multiset() == keys_of(r2.fields@).to_multiset(),
        forall|k: Seq<u8>|
            #[trigger] keys_of(r1.fields@).contains(k) ==> r1.fields@[first_index(
                keys_of(r1.fields@),
                k,
            )] == r2.fields@[first_index(keys_of(r2.fields@), k)],
    ensures
        digest_of(r1) == digest_of(r2),
{
    broadcast use vstd::seq_lib::group_to_multiset_ensures;

    let ks1 = keys_of(r1.fields@);
    let ks2 = keys_of(r2.fields@);
    let sk = sorted_keys(r1.fields@);
    crate::labels::lemma_sort_canonical(ks1, ks2);
    assert(sorted_keys(r2.fields@) == sk);
    crate::labels::lemma_byte_leq_total_ordering();
    ks1.lemma_sort_by_ensures(byte_leq());
    assert forall|j: int| 0 <= j < sk.len() implies entry_stream(r1, sk[j]) == entry_stream(
        r2,
        sk[j],
    ) by {
        assert(sk.contains(sk[j]));
        assert(sk.to_multiset().count(sk[j]) > 0);
        assert(ks1.to_multiset().count(sk[j]) > 0);
        assert(ks1.contains(sk[j]));
        assert(ks2.to_multiset().count(sk[j]) > 0);
        assert(ks2.contains(sk[j]));
        assert(r1.fields@[first_index(ks1, sk[j])] == r2.fields@[first_index(ks2, sk[j])]);
    }
    lemma_rec_stream_congruence(r1, r2, sk);
    assert(rec_stream(r1, sk) + seq![r1.additional@] =~= rec_stream(r2, sorted_keys(r2.fields@))
        + seq![r2.additional@]);
}

/// Law: a Skip-handled field has no influence on the digest: a record with
/// such a field and the record with that field removed inscribe to the
/// same digest.
pub proof fn lemma_digest_skip_elision(r1: Record, r2: Record, i: int)
    requires
        r1.mark.spec_bytes() == r2.mark.spec_bytes(),
        r1.additional@ == r2.additional@,
        !has_dup(keys_of(r1.fields@)),
        0 <= i < r1.fields@.len(),
        r1.fields@[i].value is Skip,
        r2.fields@ == r1.fields@.remove(i),
    ensures
        digest_of(r1) == digest_of(r2),
{
    broadcast use vstd::seq_lib::group_to_multiset_ensures;

    let ks1 = keys_of(r1.fields@);
    let ks2 = keys_of(r2.fields@);
    let k0 = ks1[i];
    assert(ks2 =~= ks1.remove(i));
    assert(ks2.to_multiset() == ks1.to_multiset().remove(k0));
    assert(!has_dup(ks2)) by {
        if has_dup(ks2) {
            let (p, q) = choose|p: int, q: int| 0 <= p < q < ks2.len() && ks2[p] == ks2[q];
            let p1: int = if p < i {
                p
            } else {
                p + 1
            };
            let q1: int = if q < i {
                q
            } else {
                q + 1
            };
            assert(ks1[p1] == ks2[p] && ks1[q1] == ks2[q]);
            assert(has_dup(ks1));
        }
    }
    // The sorted key lists agree once the skipped key is taken out.
    let sk1 = ks1.sort_by(byte_leq());
    let sk2 = ks2.sort_by(byte_leq());
    crate::labels::lemma_byte_leq_total_ordering();
    ks1.lemma_sort_by_ensures(byte_leq());
    ks2.lemma_sort_by_ensures(byte_leq());
    assert(ks1.contains(k0));
    assert(sk1.to_multiset().count(k0) > 0);
    assert(sk1.contains(k0));
    let p = choose|p: int| 0 <= p < sk1.len() && sk1[p] == k0;
    assert(vstd::relations::sorted_by(sk1.remove(p), byte_leq())) by {
        assert forall|a: int, b: int| 0 <= a < b < sk1.remove(p).len() implies #[trigger] byte_leq()(
            sk1.remove(p)[a],
            sk1.remove(p)[b],
        ) by {
            let a1: int = if a < p {
                a
            } else {
                a + 1
            };
            let b1: int = if b < p {
                b
            } else {
                b + 1
            };
            assert(sk1.remove(p)[a] == sk1[a1] && sk1.remove(p)[b] == sk1[b1]);
            assert(byte_leq()(sk1[a1], sk1[b1]));
        }
    }
    assert(sk1.remove(p).to_multiset() == sk2.to_multiset()) by {
        assert(sk1.remove(p).to_multiset() =~= sk1.to_multiset().remove(k0));
        assert(sk1.to_multiset().remove(k0) =~= ks1.to_multiset().remove(k0));
    }
    vstd::seq_lib::lemma_sorted_unique(sk1.remove(p), sk2, byte_leq());
    assert(sk1.remove(p) == sk2);
    // The skipped key contributes nothing, so dropping it from the walk
    // leaves the stream unchanged.
    crate::labels::lemma_first_index_self(ks1, i);
    assert(entry_stream(r1, k0) == Seq::<Seq<u8>>::empty());
    lemma_rec_stream_remove_empty(r1, sk1, p);
    // Every remaining key resolves to the same field in both records.
    assert forall|j: int| 0 <= j < sk2.len() implies entry_stream(r1, sk2[j]) == entry_stream(
        r2,
        sk2[j],
    ) by {
        let k = sk2[j];
        assert(sk2.contains(k));
        assert(sk2.to_multiset().count(k) > 0);
        assert(ks2.to_multiset().count(k) > 0);
        assert(ks2.contains(k));
        let m2 = first_index(ks2, k);
        lemma_first_index(ks2, k);
        let m1: int = if m2 < i {
            m2
        } else {
            m2 + 1
        };
        assert(ks1[m1] == k);
        assert(m1 != i) by {
            if m1 == i {
                assert(ks1.to_multiset().count(k0) == 1) by {
                    assert(ks1.no_duplicates()) by {
                        assert forall|a: int, b: int|
                            (0 <= a < ks1.len() && 0 <= b < ks1.len() && a != b) implies ks1[a]
                            != ks1[b] by {
                            if a < b {
                                assert(!(0 <= a < b < ks1.len() && ks1[a] == ks1[b]));
                            } else {
                                assert(!(0 <= b < a < ks1.len() && ks1[b] == ks1[a]));
                            }
                        }
                    }
                    ks1.lemma_multiset_has_no_duplicates();
                    assert(ks1.to_multiset().contains(k0));
                }
                assert(ks2.to_multiset().count(k0) == 0);
                assert(ks2.to_multiset().count(k) > 0);
            }
        }
        assert(ks1.contains(k));
        lemma_first_index(ks1, k);
        assert(first_index(ks1, k) == m1) by {
            crate::labels::lemma_first_index_self(ks1, m1);
        }
        assert(r1.fields@[m1] == r2.fields@[m2]);
        assert(entry_stream(r1, k) == entry_stream(r2, k));
    }
    lemma_rec_stream_congruence(r1, r2, sk2);
    assert(rec_stream(r1, sorted_keys(r1.fields@)) + seq![r1.additional@] =~= rec_stream(
        r2,
        sorted_keys(r2.fields@),
    ) + seq![r2.additional@]);
}

/// Index of the first field whose sort key has the byte encoding of `k`.
fn field_index(fields: &Vec<Field>, k: &'static str) -> (r: usize)
    requires
        keys_of(fields@).contains(k.spec_bytes()),
    ensures
        r == first_index(keys_of(fields@), k.spec_bytes()),
        0 <= r < fields@.len(),
        fields@[r as int].sort_key.spec_bytes() == k.spec_bytes(),
{
    let n = fields.len();
    let mut i: usize = 0;
    proof {
        lemma_first_index(keys_of(fields@), k.spec_bytes());
    }
    while i < n
        invariant
            n == fields@.len(),
            0 <= i <= n,
            keys_of(fields@).contains(k.spec_bytes()),
            first_index(keys_of(fields@), k.spec_bytes()) >= i,
            forall|m: int| 0 <= m < i ==> keys_of(fields@)[m] != k.spec_bytes(),
        decreases n - i,
    {
        if str_bytes_eq(fields[i].sort_key, k) {
            proof {
                assert(keys_of(fields@)[i as int] == k.spec_bytes());
                lemma_first_index(keys_of(fields@), k.spec_bytes());
            }
            return i;
        }
        proof {
            assert(keys_of(fields@)[i as int] != k.spec_bytes());
            lemma_first_index(keys_of(fields@), k.spec_bytes());
        }
        i = i + 1;
    }
    proof {
        lemma_first_index(keys_of(fields@), k.spec_bytes());
        assert(false);
    }
    0
}

/// Copy a byte vector.
fn copy_bytes(src: &Vec<u8>) -> (r: Vec<u8>)
    ensures
        r@ == src@,
{
    let n = src.len();
    let mut out: Vec<u8> = Vec::new();
    let mut k: usize = 0;
    while k < n
        invariant
            n == src@.len(),
            0 <= k <= n,
            out@ == src@.take(k as int),
        decreases n - k,
    {
        out.push(src[k]);
        proof {
            assert(src@.take(k as int).push(src@[k as int]) =~= src@.take(k as int + 1));
        }
        k = k + 1;
    }
    proof {
        assert(src@.take(n as int) =~= src@);
    }
    out
}

impl Record {
    /// Computes the record's inscription: a 64-byte digest over the
    /// fields in ascending sort-key order — skipped fields fully elided —
    /// followed by the additional data.  A record whose fields repeat a
    /// sort key, at any nesting level, is rejected as a schema error.
    pub fn inscription(&self) -> (res: DecreeResult<Vec<u8>>)
        ensures
            res is Ok <==> wf_record(*self),
            res matches Ok(d) ==> d@ == digest_of(*self) && d@.len() == INSCRIBE_LENGTH,
            res matches Err(e) ==> e.spec_type() == DecreeErrType::General && e.spec_str()@
                == "Duplicate sort keys"@,
        decreases *self,
    {
        let n = self.fields.len();
        let mut keys: Vec<&'static str> = Vec::new();
        let mut i: usize = 0;
        while i < n
            invariant
                n == self.fields@.len(),
                0 <= i <= n,
                keys@.len() == i,
                forall|m: int| 0 <= m < i ==> keys@[m] == self.fields@[m].sort_key,
            decreases n - i,
        {
            keys.push(self.fields[i].sort_key);
            i = i + 1;
        }
        proof {
            assert(views(keys@) =~= keys_of(self.fields@));
        }
        if !vector_is_distinct(&keys) {
            return Err(Error::new_general("Duplicate sort keys"));
        }
        let sorted = sort_labels(&keys);
        let ghost sk = sorted_keys(self.fields@);
        proof {
            assert(views(sorted@) == sk);
            crate::labels::lemma_byte_leq_total_ordering();
            views(keys@).lemma_sort_by_ensures(byte_leq());
            broadcast use vstd::seq_lib::group_to_multiset_ensures;

        }
        let mut hasher = TupleHasher::new(self.mark);
        let m = sorted.len();
        let mut j: usize = 0;
        while j < m
            invariant
                m == sorted@.len(),
                0 <= j <= m,
                views(sorted@) == sk,
                sk == sorted_keys(self.fields@),
                sk.to_multiset() == keys_of(self.fields@).to_multiset(),
                !has_dup(keys_of(self.fields@)),
                hasher.custom() == self.mark.spec_bytes(),
                hasher.absorbed() == rec_stream(*self, sk.take(j as int)),
                forall|p: int|
                    0 <= p < j ==> wf_val(
                        #[trigger] self.fields@[first_index(keys_of(self.fields@), sk[p])].value,
                    ),
            decreases m - j,
        {
            let k = sorted[j];
            proof {
                broadcast use vstd::seq_lib::group_to_multiset_ensures;

                assert(k.spec_bytes() == sk[j as int]);
                assert(sk.contains(sk[j as int]));
                assert(sk.to_multiset().count(sk[j as int]) > 0);
                assert(keys_of(self.fields@).to_multiset().count(sk[j as int]) > 0);
                assert(keys_of(self.fields@).contains(k.spec_bytes()));
            }
            let idx = field_index(&self.fields, k);
            match &self.fields[idx].value {
                FieldVal::Bytes(b) => {
                    hasher.update(b);
                },
                FieldVal::Nested(r) => {
                    let d = match r.inscription() {
                        Ok(d) => d,
                        Err(e) => {
                            proof {
                                assert(!wf_val(self.fields@[idx as int].value));
                                assert(!wf_record(*self));
                            }
                            return Err(e);
                        },
                    };
                    hasher.update(&d);
                },
                FieldVal::Skip => {},
            }
            proof {
                assert(entry_stream(*self, sk[j as int]) == (match self.fields@[idx as int].value {
                    FieldVal::Bytes(b) => seq![b@],
                    FieldVal::Nested(n) => seq![digest_of(*n)],
                    FieldVal::Skip => Seq::<Seq<u8>>::empty(),
                }));
                assert(sk.take(j as int).push(sk[j as int]) =~= sk.take(j as int + 1));
                lemma_rec_stream_push(*self, sk.take(j as int), sk[j as int]);
                assert(hasher.absorbed() =~= rec_stream(*self, sk.take(j as int + 1)));
            }
            j = j + 1;
        }
        proof {
            assert(sk.take(m as int) =~= sk);
        }
        hasher.update(&self.additional);
        let digest = hasher.finalize(INSCRIBE_LENGTH);
        proof {
            assert(hasher.absorbed() =~= rec_stream(*self, sk) + seq![self.additional@]);
            assert(wf_record(*self)) by {
                broadcast use vstd::seq_lib::group_to_multiset_ensures;

                assert forall|i2: int| 0 <= i2 < self.fields@.len() implies wf_val(
                    #[trigger] self.fields@[i2].value,
                ) by {
                    let ks = keys_of(self.fields@);
                    assert(ks.contains(ks[i2]));
                    assert(ks.to_multiset().count(ks[i2]) > 0);
                    assert(sk.to_multiset().count(ks[i2]) > 0);
                    assert(sk.contains(ks[i2]));
                    let p = choose|p: int| 0 <= p < sk.len() && sk[p] == ks[i2];
                    lemma_first_index_self(ks, i2);
                    assert(wf_val(self.fields@[first_index(ks, sk[p])].value));
                }
            }
        }
        Ok(digest)
    }
}

impl Inscribe for Record {
    fn get_mark(&self) -> &'static str {
        self.mark
    }

    fn get_inscription(&self) -> DecreeResult<FSInput> {
        self.inscription()
    }

    fn get_additional(&self) -> DecreeResult<FSInput> {
        Ok(copy_bytes(&self.additional))
    }
}

} // verus!
