use vstd::prelude::*;
use vstd::string::StringSliceAdditionalSpecFns;

verus! {

// The underlying duplex transcript is merlin's `Transcript`: a STROBE-based
// sponge whose state is a deterministic function of the operations applied
// to it — initialization with a protocol name, absorbing a labelled
// message, or squeezing a labelled challenge of a given length.  The model
// kept here is exactly that operation history.

#[verifier::external_type_specification]
#[verifier::external_body]
pub struct ExTranscript(merlin::Transcript);

/// One operation applied to the duplex: the first component tells the
/// operations apart (0 = initialize, 1 = absorb, 2 = squeeze), the second
/// is the name or label bytes, the third the absorbed message bytes, and
/// the fourth the squeezed length.
pub type DuplexOp = (int, Seq<u8>, Seq<u8>, int);

/// The initialization operation, recording the protocol name.
pub open spec fn init_op(name: Seq<u8>) -> DuplexOp {
    (0int, name, Seq::empty(), 0int)
}

/// Absorbing `data` under `label`.
pub open spec fn absorb_op(label: Seq<u8>, data: Seq<u8>) -> DuplexOp {
    (1int, label, data, 0int)
}

/// Squeezing `len` challenge bytes under `label`.
pub open spec fn squeeze_op(label: Seq<u8>, len: int) -> DuplexOp {
    (2int, label, Seq::empty(), len)
}

/// The history of a freshly initialized transcript.
pub open spec fn init_log(name: Seq<u8>) -> Seq<DuplexOp> {
    seq![init_op(name)]
}

/// The bytes a duplex transcript yields when, after the operations in
/// `log`, `len` challenge bytes are squeezed under `label`.  This names the
/// result of merlin's `Transcript::challenge_bytes`, which is a
/// deterministic function of the transcript's operation history, the label
/// and the requested length.
pub uninterp spec fn duplex_challenge(log: Seq<DuplexOp>, label: Seq<u8>, len: int) -> Seq<u8>;

/// Relies on merlin::Transcript::new: builds the transcript whose state is
/// determined by the protocol name alone.  merlin absorbs the name as a
/// message and asserts that every message length fits in a `u32`, so
/// longer names are excluded here.
#[verifier::external_body]
fn transcript_new(name: &'static str) -> merlin::Transcript
    requires
        name.spec_bytes().len() <= u32::MAX,
{
    merlin::Transcript::new(name.as_bytes())
}

/// A duplex transcript together with the history of operations applied to
/// it.  The history determines the state: replaying equal histories yields
/// equal transcripts, so equal logs give equal future challenges.
pub(crate) struct Duplex {
    inner: merlin::Transcript,
    history: Ghost<Seq<DuplexOp>>,
}

impl Duplex {
    /// The operations applied to this transcript so far.
    pub(crate) closed spec fn log(&self) -> Seq<DuplexOp> {
        self.history@
    }

    /// Builds the duplex transcript for a protocol name, with the matching
    /// one-element history.
    pub(crate) fn new(name: &'static str) -> (d: Duplex)
        requires
            name.spec_bytes().len() <= u32::MAX,
        ensures
            d.log() == init_log(name.spec_bytes()),
    {
        let h: Ghost<Seq<DuplexOp>> = Ghost(init_log(name.spec_bytes()));
        Duplex { inner: transcript_new(name), history: h }
    }

    /// Relies on merlin::Transcript::append_message: absorbs the label and
    /// message into the transcript state deterministically.  merlin
    /// asserts that the message length fits in a `u32`, so longer messages
    /// are excluded here; the label's length is not so encoded and needs
    /// no bound.
    #[verifier::external_body]
    pub(crate) fn absorb(&mut self, label: &'static str, data: &Vec<u8>)
        requires
            data@.len() <= u32::MAX,
        ensures
            final(self).log() == old(self).log().push(absorb_op(label.spec_bytes(), data@)),
    {
        self.inner.append_message(label.as_bytes(), data.as_slice());
    }

    /// Relies on merlin::Transcript::challenge_bytes: fills `dest` with
    /// bytes that are a deterministic function of the transcript's
    /// operation history, the label, and the length of `dest`, and advances
    /// the transcript state by that squeeze operation.  merlin asserts
    /// that the buffer length fits in a `u32`, so longer buffers are
    /// excluded here.
    #[verifier::external_body]
    pub(crate) fn squeeze(&mut self, label: &'static str, dest: &mut Vec<u8>)
        requires
            old(dest)@.len() <= u32::MAX,
        ensures
            final(self).log() == old(self).log().push(
                squeeze_op(label.spec_bytes(), old(dest)@.len() as int),
            ),
            final(dest)@ == duplex_challenge(
                old(self).log(),
                label.spec_bytes(),
                old(dest)@.len() as int,
            ),
            final(dest)@.len() == old(dest)@.len(),
    {
        self.inner.challenge_bytes(label.as_bytes(), dest.as_mut_slice());
    }
}

} // verus!
