//! Merlin transcripts: Fiat-Shamir challenges over the library's types.
//!
//! In contracts a transcript is the list of what has been done to it; a challenge
//! is a function of that list.
use crate::curves::{gin_bytes, gout_bytes, GinAffine, GinPoint, GoutAffine, GoutPoint};
use crate::field::{fp_order, fs_order, le_bytes, le_value, Fp, Fs};
use merlin::Transcript;
use vstd::bytes::{spec_u64_to_le_bytes, u64_to_le_bytes};
use vstd::prelude::*;
use vstd::string::StringSliceAdditionalSpecFns;

verus! {

/// One operation on a transcript.
pub enum TranscriptEvent {
    Append { label: Seq<u8>, message: Seq<u8> },
    Challenge { label: Seq<u8>, len: nat },
}

/// A Merlin transcript.
#[verifier::external_type_specification]
#[verifier::external_body]
pub struct ExTranscript(Transcript);

/// The operations that a transcript has absorbed.
pub uninterp spec fn transcript_log(t: Transcript) -> Seq<TranscriptEvent>;

/// The challenge bytes that a transcript gives after the operations `log`.
pub uninterp spec fn transcript_challenge(
    log: Seq<TranscriptEvent>,
    label: Seq<u8>,
    len: nat,
) -> Seq<u8>;

/// `merlin::Transcript::new`: a transcript that has absorbed the label, as a
/// message labelled `dom-sep`.
pub assume_specification[ Transcript::new ](label: &'static [u8]) -> (t: Transcript)
    requires
        label@.len() <= u32::MAX,
    ensures
        transcript_log(t) == seq![
            TranscriptEvent::Append { label: "dom-sep".spec_bytes(), message: label@ },
        ],
;

/// `merlin::Transcript::append_message`: absorbs a labelled message, which must be
/// shorter than 4 GiB.
pub assume_specification[ Transcript::append_message ](
    t: &mut Transcript,
    label: &'static [u8],
    message: &[u8],
)
    requires
        message@.len() <= u32::MAX,
    ensures
        transcript_log(*final(t)) == transcript_log(*old(t)).push(
            TranscriptEvent::Append { label: label@, message: message@ },
        ),
;

/// `merlin::Transcript::challenge_bytes`: fills a buffer with challenge bytes,
/// which depend on what was absorbed, the label and the length; giving them is
/// itself absorbed.
pub assume_specification[ Transcript::challenge_bytes ](
    t: &mut Transcript,
    label: &'static [u8],
    dest: &mut [u8],
)
    requires
        old(dest)@.len() <= u32::MAX,
    ensures
        final(dest)@ == transcript_challenge(transcript_log(*old(t)), label@, old(dest)@.len()),
        final(dest)@.len() == old(dest)@.len(),
        transcript_log(*final(t)) == transcript_log(*old(t)).push(
            TranscriptEvent::Challenge { label: label@, len: old(dest)@.len() },
        ),
;

// ─── what is appended ───────────────────────────────────────────────────────

/// A message of bytes.
pub open spec fn ev_bytes(label: Seq<u8>, message: Seq<u8>) -> TranscriptEvent {
    TranscriptEvent::Append { label, message }
}

/// An integer, as its eight little-endian bytes.
pub open spec fn ev_u64(label: Seq<u8>, v: u64) -> TranscriptEvent {
    ev_bytes(label, spec_u64_to_le_bytes(v))
}

/// A field element, as its 32 little-endian bytes.
pub open spec fn ev_field(label: Seq<u8>, v: int) -> TranscriptEvent {
    ev_bytes(label, le_bytes(v, 32))
}

/// A `G_in` point, compressed.
pub open spec fn ev_gin(label: Seq<u8>, p: GinPoint) -> TranscriptEvent {
    ev_bytes(label, gin_bytes(p))
}

/// A `G_out` point, compressed.
pub open spec fn ev_gout(label: Seq<u8>, p: GoutPoint) -> TranscriptEvent {
    ev_bytes(label, gout_bytes(p))
}

/// A field challenge: 64 bytes are drawn.
pub open spec fn ev_challenge(label: Seq<u8>) -> TranscriptEvent {
    TranscriptEvent::Challenge { label, len: 64 }
}

/// The `F_p` challenge after the operations `log`.
pub open spec fn fp_challenge(log: Seq<TranscriptEvent>, label: Seq<u8>) -> int {
    le_value(transcript_challenge(log, label, 64)) % fp_order()
}

/// The `F_s` challenge after the operations `log`.
pub open spec fn fs_challenge(log: Seq<TranscriptEvent>, label: Seq<u8>) -> int {
    le_value(transcript_challenge(log, label, 64)) % fs_order()
}

/// Transcript operations on integers, field elements and points.
pub trait TranscriptExt {
    /// The operations so far.
    spec fn log(&self) -> Seq<TranscriptEvent>;

    fn append_u64(&mut self, label: &'static [u8], v: u64)
        ensures
            final(self).log() == old(self).log().push(ev_u64(label@, v)),
    ;

    fn append_bytes(&mut self, label: &'static [u8], v: &[u8])
        requires
            v@.len() <= u32::MAX,
        ensures
            final(self).log() == old(self).log().push(ev_bytes(label@, v@)),
    ;

    fn append_fp(&mut self, label: &'static [u8], v: &Fp)
        ensures
            final(self).log() == old(self).log().push(ev_field(label@, v@)),
    ;

    fn append_fs(&mut self, label: &'static [u8], v: &Fs)
        ensures
            final(self).log() == old(self).log().push(ev_field(label@, v@)),
    ;

    fn append_gin(&mut self, label: &'static [u8], v: &GinAffine)
        ensures
            final(self).log() == old(self).log().push(ev_gin(label@, v@)),
    ;

    fn append_gout(&mut self, label: &'static [u8], v: &GoutAffine)
        ensures
            final(self).log() == old(self).log().push(ev_gout(label@, v@)),
    ;

    fn challenge_fp(&mut self, label: &'static [u8]) -> (r: Fp)
        ensures
            r@ == fp_challenge(old(self).log(), label@),
            final(self).log() == old(self).log().push(ev_challenge(label@)),
    ;

    fn challenge_fs(&mut self, label: &'static [u8]) -> (r: Fs)
        ensures
            r@ == fs_challenge(old(self).log(), label@),
            final(self).log() == old(self).log().push(ev_challenge(label@)),
    ;
}

impl TranscriptExt for Transcript {
    open spec fn log(&self) -> Seq<TranscriptEvent> {
        transcript_log(*self)
    }

    fn append_u64(&mut self, label: &'static [u8], v: u64) {
        let bytes = u64_to_le_bytes(v);
        self.append_message(label, &bytes);
    }

    fn append_bytes(&mut self, label: &'static [u8], v: &[u8]) {
        self.append_message(label, v);
    }

    fn append_fp(&mut self, label: &'static [u8], v: &Fp) {
        let bytes = v.ark_bytes();
        self.append_message(label, &bytes);
    }

    fn append_fs(&mut self, label: &'static [u8], v: &Fs) {
        let bytes = v.ark_bytes();
        self.append_message(label, &bytes);
    }

    fn append_gin(&mut self, label: &'static [u8], v: &GinAffine) {
        let bytes = v.ark_bytes();
        self.append_message(label, &bytes);
    }

    fn append_gout(&mut self, label: &'static [u8], v: &GoutAffine) {
        let bytes = v.ark_bytes();
        self.append_message(label, &bytes);
    }

    fn challenge_fp(&mut self, label: &'static [u8]) -> (r: Fp) {
        let mut buf: Vec<u8> = vec![0u8; 64];
        self.challenge_bytes(label, buf.as_mut_slice());
        Fp::from_le_bytes_mod_order(&buf)
    }

    fn challenge_fs(&mut self, label: &'static [u8]) -> (r: Fs) {
        let mut buf: Vec<u8> = vec![0u8; 64];
        self.challenge_bytes(label, buf.as_mut_slice());
        Fs::from_le_bytes_mod_order(&buf)
    }
}

} // verus!
