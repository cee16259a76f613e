use vstd::prelude::*;
use vstd::relations::sorted_by;
use vstd::seq_lib::lemma_sorted_unique;
use vstd::string::StringSliceAdditionalSpecFns;

use crate::duplex::{absorb_op, duplex_challenge, init_log, squeeze_op, Duplex, DuplexOp};
use crate::error::{DecreeErrType, DecreeResult, Error};
use crate::inscribe::Inscribe;
use crate::labels::{
    byte_leq, contains_label, first_index, has_dup, index_of_label, lemma_byte_leq_total_ordering,
    lemma_first_index_self, lemma_no_dup_permutation, sort_labels, to_label_vec,
    vector_is_distinct, views,
};

verus! {

pub type InputLabel = &'static str;

pub type ChallengeLabel = &'static str;

pub type ErrMsg = &'static str;

pub type FSInput = Vec<u8>;

/// A `Decree` formalizes (and enforces) a Fiat-Shamir transform.  It sits
/// atop a duplex transcript, ensuring that every declared input is supplied
/// before any challenge is generated, and that challenges are generated in
/// their declared order.
///
/// Declared input labels are kept in canonical byte-lexicographic order;
/// once the last declared input arrives, all values are committed to the
/// transcript in that order, so the insertion order chosen by the caller
/// cannot influence the challenge stream.
pub struct Decree {
    inputs: Vec<&'static str>,
    challenges: Vec<&'static str>,
    values: Vec<Option<Vec<u8>>>,
    duplex: Duplex,
    committed: bool,
}

/// The view of each pending value, where present.
pub open spec fn opt_views(s: Seq<Option<Vec<u8>>>) -> Seq<Option<Seq<u8>>> {
    Seq::new(
        s.len(),
        |i: int|
            match s[i] {
                Some(v) => Some(v@),
                None => None,
            },
    )
}

/// Whether every declared input has a recorded value.
pub open spec fn all_present(vals: Seq<Option<Seq<u8>>>) -> bool {
    forall|i: int| 0 <= i < vals.len() ==> vals[i] is Some
}

/// Whether every recorded value fits the duplex transcript's length
/// encoding, which holds a message length in a `u32`.
pub open spec fn values_bounded(vals: Seq<Option<Seq<u8>>>) -> bool {
    forall|i: int| 0 <= i < vals.len() && (#[trigger] vals[i]) is Some ==> vals[i]->0.len()
        <= u32::MAX
}

/// The absorb operations a commit performs: each label paired with its
/// recorded value, in the (already canonical) order of `labels`.
pub open spec fn commit_ops(labels: Seq<Seq<u8>>, vals: Seq<Option<Seq<u8>>>) -> Seq<DuplexOp> {
    Seq::new(
        labels.len(),
        |i: int|
            absorb_op(
                labels[i],
                match vals[i] {
                    Some(v) => v,
                    None => Seq::empty(),
                },
            ),
    )
}

/// The label-to-value assignment recorded by a label vector and its aligned
/// value vector.
pub open spec fn assignment(labels: Seq<Seq<u8>>, vals: Seq<Option<Seq<u8>>>) -> Map<
    Seq<u8>,
    Seq<u8>,
> {
    Map::new(
        |k: Seq<u8>| labels.contains(k),
        |k: Seq<u8>|
            match vals[first_index(labels, k)] {
                Some(v) => v,
                None => Seq::empty(),
            },
    )
}

/// The error reported when a value cannot be serialized.
pub open spec fn serialize_err(e: Error) -> bool {
    e.spec_type() == DecreeErrType::General && e.spec_str()@ == "Could not serialize"@
}

/// The one error that recording a value under the label with encoding `lb`
/// can report, decided by the transcript state, the label, and — once the
/// state admits the label — the value's length.
pub open spec fn add_input_err(pre: Decree, lb: Seq<u8>, e: Error) -> bool {
    if pre.committed() {
        e.spec_type() == DecreeErrType::General && e.spec_str()@
            == "Cannot add values after commitment"@
    } else if !pre.inputs_bytes().contains(lb) {
        e.spec_type() == DecreeErrType::InvalidLabel && e.spec_str()@ == "Invalid label"@
    } else if pre.values_view()[first_index(pre.inputs_bytes(), lb)] is Some {
        e.spec_type() == DecreeErrType::InvalidLabel && e.spec_str()@ == "Label already used"@
    } else {
        e.spec_type() == DecreeErrType::General && e.spec_str()@ == "Input value too long"@
    }
}

/// Nothing observable about the transcript changed.
pub open spec fn decree_unchanged(pre: Decree, post: Decree) -> bool {
    &&& post.inputs_bytes() == pre.inputs_bytes()
    &&& post.challenges_bytes() == pre.challenges_bytes()
    &&& post.values_view() == pre.values_view()
    &&& post.committed() == pre.committed()
    &&& post.log() == pre.log()
}

/// What adding the bytes `data` under the label with encoding `lb` does:
/// each misuse — adding after commit, an undeclared label, a reused label,
/// or a value too long for the duplex's `u32` length encoding — is
/// rejected with its own error and leaves the transcript unchanged; a
/// valid addition records the value, and the addition that completes the
/// declared input set also commits every recorded value to the duplex in
/// canonical label order.
pub open spec fn add_result(
    pre: Decree,
    post: Decree,
    lb: Seq<u8>,
    data: Seq<u8>,
    r: DecreeResult<()>,
) -> bool {
    if pre.committed() {
        &&& r matches Err(e) && e.spec_type() == DecreeErrType::General && e.spec_str()@
            == "Cannot add values after commitment"@
        &&& decree_unchanged(pre, post)
    } else if !pre.inputs_bytes().contains(lb) {
        &&& r matches Err(e) && e.spec_type() == DecreeErrType::InvalidLabel && e.spec_str()@
            == "Invalid label"@
        &&& decree_unchanged(pre, post)
    } else if pre.values_view()[first_index(pre.inputs_bytes(), lb)] is Some {
        &&& r matches Err(e) && e.spec_type() == DecreeErrType::InvalidLabel && e.spec_str()@
            == "Label already used"@
        &&& decree_unchanged(pre, post)
    } else if data.len() > u32::MAX {
        &&& r matches Err(e) && e.spec_type() == DecreeErrType::General && e.spec_str()@
            == "Input value too long"@
        &&& decree_unchanged(pre, post)
    } else {
        let newvals = pre.values_view().update(first_index(pre.inputs_bytes(), lb), Some(data));
        &&& r is Ok
        &&& post.inputs_bytes() == pre.inputs_bytes()
        &&& post.challenges_bytes() == pre.challenges_bytes()
        &&& post.values_view() == newvals
        &&& if all_present(newvals) {
            &&& post.committed()
            &&& post.log() == pre.log() + commit_ops(pre.inputs_bytes(), newvals)
        } else {
            &&& !post.committed()
            &&& post.log() == pre.log()
        }
    }
}

/// What requesting `len` challenge bytes under the label with encoding
/// `cb` does: each misuse is rejected with its own error and changes
/// nothing; a valid request fills the destination with the duplex's
/// deterministic challenge output and consumes the head of the declared
/// challenge list.
pub open spec fn challenge_result(
    pre: Decree,
    post: Decree,
    cb: Seq<u8>,
    dest_pre: Seq<u8>,
    dest_post: Seq<u8>,
    r: DecreeResult<()>,
) -> bool {
    if !pre.committed() {
        &&& r matches Err(e) && e.spec_type() == DecreeErrType::General && e.spec_str()@
            == "Missing transcript parameters"@
        &&& decree_unchanged(pre, post)
        &&& dest_post == dest_pre
    } else if pre.challenges_bytes().len() == 0 {
        &&& r matches Err(e) && e.spec_type() == DecreeErrType::InvalidChallenge && e.spec_str()@
            == "No remaining challenges"@
        &&& decree_unchanged(pre, post)
        &&& dest_post == dest_pre
    } else if !pre.challenges_bytes().contains(cb) {
        &&& r matches Err(e) && e.spec_type() == DecreeErrType::InvalidChallenge && e.spec_str()@
            == "Requested challenge not in spec"@
        &&& decree_unchanged(pre, post)
        &&& dest_post == dest_pre
    } else if pre.challenges_bytes()[0] != cb {
        &&& r matches Err(e) && e.spec_type() == DecreeErrType::InvalidChallenge && e.spec_str()@
            == "Challenge order incorrect"@
        &&& decree_unchanged(pre, post)
        &&& dest_post == dest_pre
    } else {
        &&& r is Ok
        &&& dest_post == duplex_challenge(pre.log(), cb, dest_pre.len() as int)
        &&& dest_post.len() == dest_pre.len()
        &&& post.log() == pre.log().push(squeeze_op(cb, dest_pre.len() as int))
        &&& post.challenges_bytes() == pre.challenges_bytes().drop_first()
        &&& post.inputs_bytes() == pre.inputs_bytes()
        &&& post.values_view() == pre.values_view()
        &&& post.committed()
    }
}

/// What extending into a new phase does: it is allowed only once the
/// current phase has drained, it re-validates the new schema as
/// construction does, and it preserves the duplex state.
pub open spec fn extend_result(
    pre: Decree,
    post: Decree,
    iv: Seq<Seq<u8>>,
    cv: Seq<Seq<u8>>,
    r: DecreeResult<()>,
) -> bool {
    if !(pre.challenges_bytes().len() == 0 && pre.committed()) {
        &&& r matches Err(e) && e.spec_type() == DecreeErrType::ExtendFail && e.spec_str()@
            == "Cannot extend Decree until all challenges generated"@
        &&& decree_unchanged(pre, post)
    } else if iv.len() == 0 {
        &&& r matches Err(e) && e.spec_type() == DecreeErrType::ExtendFail && e.spec_str()@
            == "Must specify at least one input"@
        &&& decree_unchanged(pre, post)
    } else if cv.len() == 0 {
        &&& r matches Err(e) && e.spec_type() == DecreeErrType::ExtendFail && e.spec_str()@
            == "Must specify at least one challenge"@
        &&& decree_unchanged(pre, post)
    } else if has_dup(iv) {
        &&& r matches Err(e) && e.spec_type() == DecreeErrType::InitFail && e.spec_str()@
            == "Inputs must be distinct"@
        &&& decree_unchanged(pre, post)
    } else {
        &&& r is Ok
        &&& post.inputs_bytes() == iv.sort_by(byte_leq())
        &&& post.inputs_bytes().len() == iv.len()
        &&& post.challenges_bytes() == cv
        &&& post.values_view() == Seq::new(iv.len(), |i: int| None::<Seq<u8>>)
        &&& !post.committed()
        &&& post.log() == pre.log()
    }
}

impl Decree {
    /// The declared input labels of the current phase, as byte encodings,
    /// in canonical order.
    pub closed spec fn inputs_bytes(&self) -> Seq<Seq<u8>> {
        views(self.inputs@)
    }

    /// The declared challenge labels still to be emitted, as byte
    /// encodings, head first.
    pub closed spec fn challenges_bytes(&self) -> Seq<Seq<u8>> {
        views(self.challenges@)
    }

    /// The value recorded for each declared input, aligned with
    /// `inputs_bytes`.
    pub closed spec fn values_view(&self) -> Seq<Option<Seq<u8>>> {
        opt_views(self.values@)
    }

    /// The operation history of the underlying duplex transcript.
    pub closed spec fn log(&self) -> Seq<DuplexOp> {
        self.duplex.log()
    }

    /// Whether the current phase has committed its inputs.
    pub closed spec fn committed(&self) -> bool {
        self.committed
    }

    /// Well-formedness: one value slot per declared input, declared inputs
    /// canonically sorted and duplicate-free, every recorded value within
    /// the duplex's length encoding, and a committed phase has every value
    /// recorded.
    pub closed spec fn wf(&self) -> bool {
        &&& self.values@.len() == self.inputs@.len()
        &&& sorted_by(self.inputs_bytes(), byte_leq())
        &&& !has_dup(self.inputs_bytes())
        &&& values_bounded(self.values_view())
        &&& (self.committed ==> all_present(self.values_view()))
    }

    /// Creates a new `Decree` for protocol `name` with the given input
    /// labels and ordered challenge labels.  Fails with `InitFail` when
    /// either collection is empty or the inputs contain a duplicate label.
    /// The name must fit the duplex's length encoding, which holds a
    /// message length in a `u32`.
    pub fn new(name: &'static str, inputs: &[InputLabel], challenges: &[ChallengeLabel]) -> (r:
        DecreeResult<Decree>)
        requires
            name.spec_bytes().len() <= u32::MAX,
        ensures
            r is Ok <==> (inputs@.len() > 0 && challenges@.len() > 0 && !has_dup(views(inputs@))),
            r matches Err(e) ==> e.spec_type() == DecreeErrType::InitFail,
            r matches Err(e) ==> e.spec_str()@ == (if inputs@.len() == 0 {
                "Must specify at least one input"@
            } else if challenges@.len() == 0 {
                "Must specify at least one challenge"@
            } else {
                "Inputs must be distinct"@
            }),
            r matches Ok(d) ==> {
                &&& d.wf()
                &&& d.inputs_bytes() == views(inputs@).sort_by(byte_leq())
                &&& d.inputs_bytes().len() == inputs@.len()
                &&& d.challenges_bytes() == views(challenges@)
                &&& d.values_view() == Seq::new(inputs@.len(), |i: int| None::<Seq<u8>>)
                &&& !d.committed()
                &&& d.log() == init_log(name.spec_bytes())
            },
    {
        if inputs.len() == 0 {
            return Err(Error::new_init_fail("Must specify at least one input"));
        }
        if challenges.len() == 0 {
            return Err(Error::new_init_fail("Must specify at least one challenge"));
        }
        let input_vec = to_label_vec(inputs);
        if !vector_is_distinct(&input_vec) {
            return Err(Error::new_init_fail("Inputs must be distinct"));
        }
        let sorted = sort_labels(&input_vec);
        let chal_vec = to_label_vec(challenges);
        let n = sorted.len();
        let mut values: Vec<Option<Vec<u8>>> = Vec::new();
        let mut k: usize = 0;
        while k < n
            invariant
                0 <= k <= n,
                values@.len() == k,
                forall|i: int| 0 <= i < k ==> values@[i] is None,
            decreases n - k,
        {
            values.push(None);
            k = k + 1;
        }
        proof {
            lemma_byte_leq_total_ordering();
            views(input_vec@).lemma_sort_by_ensures(byte_leq());
            lemma_no_dup_permutation(views(input_vec@), views(sorted@));
            assert(views(input_vec@) == views(inputs@));
            assert(opt_views(values@) =~= Seq::new(inputs@.len(), |i: int| None::<Seq<u8>>));
        }
        Ok(
            Decree {
                inputs: sorted,
                challenges: chal_vec,
                values,
                duplex: Duplex::new(name),
                committed: false,
            },
        )
    }

    /// Moves to the next phase of a protocol while keeping the duplex
    /// state.  Only permitted once every declared challenge of the current
    /// phase has been emitted; the new schema must meet the same
    /// requirements as in `new`.
    pub fn extend(&mut self, inputs: &[InputLabel], challenges: &[ChallengeLabel]) -> (r:
        DecreeResult<()>)
        requires
            old(self).wf(),
        ensures
            final (self).wf(),
            extend_result(*old(self), *final (self), views(inputs@), views(challenges@), r),
    {
        if self.challenges.len() != 0 || !self.committed {
            return Err(Error::new_extend_fail("Cannot extend Decree until all challenges generated"));
        }
        if inputs.len() == 0 {
            return Err(Error::new_extend_fail("Must specify at least one input"));
        }
        if challenges.len() == 0 {
            return Err(Error::new_extend_fail("Must specify at least one challenge"));
        }
        let input_vec = to_label_vec(inputs);
        if !vector_is_distinct(&input_vec) {
            return Err(Error::new_init_fail("Inputs must be distinct"));
        }
        let sorted = sort_labels(&input_vec);
        let chal_vec = to_label_vec(challenges);
        let n = sorted.len();
        let mut values: Vec<Option<Vec<u8>>> = Vec::new();
        let mut k: usize = 0;
        while k < n
            invariant
                0 <= k <= n,
                values@.len() == k,
                forall|i: int| 0 <= i < k ==> values@[i] is None,
            decreases n - k,
        {
            values.push(None);
            k = k + 1;
        }
        proof {
            lemma_byte_leq_total_ordering();
            views(input_vec@).lemma_sort_by_ensures(byte_leq());
            lemma_no_dup_permutation(views(input_vec@), views(sorted@));
            assert(views(input_vec@) == views(inputs@));
            assert(opt_views(values@) =~= Seq::new(inputs@.len(), |i: int| None::<Seq<u8>>));
        }
        self.inputs = sorted;
        self.challenges = chal_vec;
        self.values = values;
        self.committed = false;
        Ok(())
    }

    /// Whether the phase is uncommitted with every declared input supplied.
    fn can_commit(&self) -> (r: bool)
        ensures
            r == (!self.committed() && all_present(self.values_view())),
    {
        if self.committed {
            return false;
        }
        let n = self.values.len();
        let mut j: usize = 0;
        while j < n
            invariant
                n == self.values@.len(),
                0 <= j <= n,
                forall|i: int| 0 <= i < j ==> opt_views(self.values@)[i] is Some,
            decreases n - j,
        {
            if self.values[j].is_none() {
                proof {
                    assert(opt_views(self.values@)[j as int] is None);
                }
                return false;
            }
            j = j + 1;
        }
        true
    }

    /// Writes every recorded value into the duplex transcript, in the
    /// canonical order of the declared input labels, and marks the phase
    /// committed.
    fn commit(&mut self)
        requires
            old(self).wf(),
            !old(self).committed(),
            all_present(old(self).values_view()),
        ensures
            final (self).wf(),
            final (self).committed(),
            final (self).inputs_bytes() == old(self).inputs_bytes(),
            final (self).challenges_bytes() == old(self).challenges_bytes(),
            final (self).values_view() == old(self).values_view(),
            final (self).log() == old(self).log() + commit_ops(
                old(self).inputs_bytes(),
                old(self).values_view(),
            ),
    {
        let ghost base = self.duplex.log();
        let ghost ops = commit_ops(old(self).inputs_bytes(), old(self).values_view());
        let n = self.inputs.len();
        proof {
            assert(base + ops.take(0) =~= base);
        }
        let mut j: usize = 0;
        while j < n
            invariant
                old(self).wf(),
                all_present(old(self).values_view()),
                n == self.inputs@.len(),
                0 <= j <= n,
                self.inputs@ == old(self).inputs@,
                self.challenges@ == old(self).challenges@,
                self.values@ == old(self).values@,
                self.committed == old(self).committed,
                ops == commit_ops(old(self).inputs_bytes(), old(self).values_view()),
                self.duplex.log() == base + ops.take(j as int),
            decreases n - j,
        {
            let label = self.inputs[j];
            proof {
                assert(old(self).values_view()[j as int] is Some);
                assert(opt_views(self.values@) == old(self).values_view());
                assert(self.values@[j as int] is Some);
            }
            let v: &Vec<u8> = self.values[j].as_ref().unwrap();
            proof {
                assert(label.spec_bytes() == old(self).inputs_bytes()[j as int]);
                assert(opt_views(self.values@)[j as int] == Some(v@));
                assert(ops[j as int] == absorb_op(label.spec_bytes(), v@));
                assert(old(self).values_view()[j as int]->0.len() <= u32::MAX);
            }
            self.duplex.absorb(label, v);
            proof {
                assert(ops.take(j as int).push(ops[j as int]) =~= ops.take(j as int + 1));
                assert(base + ops.take(j as int + 1) =~= (base + ops.take(j as int)).push(
                    ops[j as int],
                ));
            }
            j = j + 1;
        }
        self.committed = true;
        proof {
            assert(ops.take(n as int) =~= ops);
        }
    }

    /// Records `input` under `label`; the addition that completes the
    /// declared input set also commits the phase.  A value longer than the
    /// duplex's length encoding admits is rejected rather than recorded.
    fn add_input(&mut self, label: InputLabel, input: FSInput) -> (r: DecreeResult<()>)
        requires
            old(self).wf(),
        ensures
            final (self).wf(),
            add_result(*old(self), *final (self), label.spec_bytes(), input@, r),
    {
        if self.committed {
            return Err(Error::new_general("Cannot add values after commitment"));
        }
        if !contains_label(&self.inputs, label) {
            return Err(Error::new_invalid_label("Invalid label"));
        }
        let idx = index_of_label(&self.inputs, label);
        if self.values[idx].is_some() {
            proof {
                assert(self.values_view()[idx as int] is Some);
            }
            return Err(Error::new_invalid_label("Label already used"));
        }
        if input.len() > u32::MAX as usize {
            return Err(Error::new_general("Input value too long"));
        }
        let ghost pre_vals = self.values_view();
        self.values[idx] = Some(input);
        proof {
            assert(self.values_view() =~= pre_vals.update(idx as int, Some(input@)));
            assert(values_bounded(self.values_view())) by {
                assert forall|i: int|
                    0 <= i < self.values_view().len() && (#[trigger] self.values_view()[i])
                        is Some implies self.values_view()[i]->0.len() <= u32::MAX by {
                    if i != idx {
                        assert(self.values_view()[i] == pre_vals[i]);
                        assert(pre_vals[i] is Some);
                    }
                }
            }
        }
        if self.can_commit() {
            self.commit();
        }
        Ok(())
    }

    /// Associates raw bytes with the given input label.
    pub fn add_bytes(&mut self, label: InputLabel, input: &FSInput) -> (r: DecreeResult<()>)
        requires
            old(self).wf(),
        ensures
            final (self).wf(),
            add_result(*old(self), *final (self), label.spec_bytes(), input@, r),
    {
        let n = input.len();
        let mut copied: Vec<u8> = Vec::new();
        let mut k: usize = 0;
        while k < n
            invariant
                n == input@.len(),
                0 <= k <= n,
                copied@ == input@.take(k as int),
            decreases n - k,
        {
            copied.push(input[k]);
            proof {
                assert(input@.take(k as int).push(input@[k as int]) =~= input@.take(k as int + 1));
            }
            k = k + 1;
        }
        proof {
            assert(input@.take(n as int) =~= input@);
        }
        self.add_input(label, copied)
    }

    /// Associates the inscription of `input` with the given input label.
    /// Whatever bytes the inscription yields, they are added exactly as
    /// `add_bytes` would add them; any error of the inscription itself is
    /// passed through and the transcript is left unchanged.
    pub fn add<T: Inscribe>(&mut self, label: InputLabel, input: T) -> (r: DecreeResult<()>)
        requires
            old(self).wf(),
        ensures
            final (self).wf(),
            r is Err ==> decree_unchanged(*old(self), *final (self)),
            r is Ok ==> exists|data: Seq<u8>|
                add_result(*old(self), *final (self), label.spec_bytes(), data, r),
            old(self).committed() ==> r is Err,
            !old(self).inputs_bytes().contains(label.spec_bytes()) ==> r is Err,
    {
        let inscription = match input.get_inscription() {
            Ok(v) => v,
            Err(e) => {
                return Err(e);
            },
        };
        let ghost data = inscription@;
        let r = self.add_input(label, inscription);
        proof {
            assert(add_result(*old(self), *self, label.spec_bytes(), data, r));
        }
        r
    }

    /// Associates the canonical serialization of `input` with the given
    /// input label.  A serialization failure is reported as a `General`
    /// error and leaves the transcript unchanged; otherwise the resulting
    /// bytes are added exactly as `add_bytes` would add them, so any other
    /// error is the one `add_input_err` fixes for the transcript state.
    pub fn add_serial<T: serde::Serialize>(&mut self, label: InputLabel, input: T) -> (r:
        DecreeResult<()>)
        requires
            old(self).wf(),
        ensures
            final (self).wf(),
            r is Err ==> decree_unchanged(*old(self), *final (self)),
            r matches Err(e) ==> (serialize_err(e) || add_input_err(
                *old(self),
                label.spec_bytes(),
                e,
            )),
            r is Ok ==> exists|data: Seq<u8>|
                add_result(*old(self), *final (self), label.spec_bytes(), data, r),
            old(self).committed() ==> r is Err,
            !old(self).inputs_bytes().contains(label.spec_bytes()) ==> r is Err,
    {
        let bytevec = match bcs_to_bytes(&input) {
            Some(a) => a,
            None => {
                return Err(Error::new_general("Could not serialize"));
            },
        };
        let ghost data = bytevec@;
        let r = self.add_input(label, bytevec);
        proof {
            assert(add_result(*old(self), *self, label.spec_bytes(), data, r));
        }
        r
    }

    /// Extracts the next challenge from the duplex transcript.  The label
    /// must be the head of the remaining declared challenge list, and no
    /// challenge can be drawn before the phase has committed.  The length
    /// of `dest` decides how many bytes are squeezed; it must fit the
    /// duplex's length encoding, which holds a buffer length in a `u32`.
    pub fn get_challenge(&mut self, challenge: ChallengeLabel, dest: &mut Vec<u8>) -> (r:
        DecreeResult<()>)
        requires
            old(self).wf(),
            old(dest)@.len() <= u32::MAX,
        ensures
            final (self).wf(),
            challenge_result(
                *old(self),
                *final (self),
                challenge.spec_bytes(),
                old(dest)@,
                final (dest)@,
                r,
            ),
    {
        if !self.committed {
            return Err(Error::new_general("Missing transcript parameters"));
        }
        if self.challenges.len() == 0 {
            return Err(Error::new_invalid_challenge("No remaining challenges"));
        }
        if !contains_label(&self.challenges, challenge) {
            return Err(Error::new_invalid_challenge("Requested challenge not in spec"));
        }
        if !crate::labels::str_bytes_eq(self.challenges[0], challenge) {
            proof {
                assert(self.challenges_bytes()[0] == self.challenges@[0].spec_bytes());
            }
            return Err(Error::new_invalid_challenge("Challenge order incorrect"));
        }
        self.duplex.squeeze(challenge, dest);
        let ghost pre_chals = self.challenges_bytes();
        self.challenges.remove(0);
        proof {
            assert(self.challenges_bytes() =~= pre_chals.drop_first());
        }
        Ok(())
    }
}

/// Relies on bcs::to_bytes: the canonical serialization of `value`, or
/// nothing when serialization fails.  Which bytes come back is decided by
/// the type's `Serialize` implementation, so nothing is claimed of the
/// result; callers handle every outcome.
#[verifier::external_body]
fn bcs_to_bytes<T: serde::Serialize>(value: &T) -> Option<Vec<u8>> {
    match bcs::to_bytes(value) {
        Ok(v) => Some(v),
        Err(_) => None,
    }
}

/// What well-formedness guarantees of a transcript's declared inputs;
/// these are the hypotheses under which the order-independence law below
/// applies to the label and value views of any well-formed transcript.
pub proof fn lemma_wf_inputs(d: &Decree)
    requires
        d.wf(),
    ensures
        sorted_by(d.inputs_bytes(), byte_leq()),
        !has_dup(d.inputs_bytes()),
        d.values_view().len() == d.inputs_bytes().len(),
{
}

/// Law: at the transcript boundary, the outcome of an addition is a
/// function of the label and the bytes alone.  In particular, a value
/// entered through its inscription and its precomputed 64-byte digest
/// entered directly leave the transcript in the same state.
pub proof fn lemma_add_data_determines_state(
    pre: Decree,
    post1: Decree,
    post2: Decree,
    lb: Seq<u8>,
    data: Seq<u8>,
    r1: DecreeResult<()>,
    r2: DecreeResult<()>,
)
    requires
        add_result(pre, post1, lb, data, r1),
        add_result(pre, post2, lb, data, r2),
    ensures
        r1 is Ok <==> r2 is Ok,
        decree_unchanged(post1, post2),
{
}

/// Law: the stream of bytes committed to the duplex transcript is a
/// function of the declared label set and of the value bound to each label
/// alone.  Two phases that declare the same labels — in any order — and
/// bind the same value to each label commit identical operation streams,
/// so every later challenge is identical as well.
pub proof fn lemma_commit_order_independence(
    l1: Seq<Seq<u8>>,
    v1: Seq<Option<Seq<u8>>>,
    l2: Seq<Seq<u8>>,
    v2: Seq<Option<Seq<u8>>>,
)
    requires
        sorted_by(l1, byte_leq()),
        sorted_by(l2, byte_leq()),
        !has_dup(l1),
        l1.to_multiset() == l2.to_multiset(),
        v1.len() == l1.len(),
        v2.len() == l2.len(),
        assignment(l1, v1) == assignment(l2, v2),
    ensures
        commit_ops(l1, v1) == commit_ops(l2, v2),
{
    lemma_byte_leq_total_ordering();
    lemma_sorted_unique(l1, l2, byte_leq());
    assert(l1 == l2);
    assert forall|i: int| 0 <= i < l1.len() implies commit_ops(l1, v1)[i] == commit_ops(l2, v2)[i] by {
        assert(l1.contains(l1[i]));
        lemma_first_index_self(l1, i);
        assert(assignment(l1, v1)[l1[i]] == assignment(l2, v2)[l2[i]]);
    }
    assert(commit_ops(l1, v1) =~= commit_ops(l2, v2));
}

} // verus!
