//! The retrying fetcher's decisions: after each attempt, either hand the
//! payload on or report the failure and wait before trying again. The
//! caller performs the attempts and the waits; there is no retry ceiling.
use vstd::prelude::*;
use crate::text::push_text;

verus! {

/// Declares `image::DynamicImage`, a decoded page; the library only carries it.
#[verifier::external_type_specification]
#[verifier::external_body]
pub struct ExDynamicImage(image::DynamicImage);

/// Whether `bytes` hold an image in a format that the decoder reads.
pub uninterp spec fn decodes(bytes: Seq<u8>) -> bool;

/// Relies on `image::load_from_memory`: it guesses the format from the
/// bytes and decodes them, so whether it succeeds depends on the bytes alone;
/// a failure is handed on as the decoder's message.
#[verifier::external_body]
fn load_image(bytes: &[u8]) -> (r: Result<image::DynamicImage, String>)
    ensures
        r is Ok <==> decodes(bytes@),
{
    image::load_from_memory(bytes).map_err(|e| e.to_string())
}

/// A page's payload from what the transport delivered: a transport failure
/// is handed on, and delivered bytes are decoded.
pub fn decode_page(response: Result<Vec<u8>, String>) -> (r: Result<image::DynamicImage, String>)
    ensures
        response matches Err(e) ==> r == Err::<image::DynamicImage, String>(e),
        response matches Ok(b) ==> (r is Ok <==> decodes(b@)),
{
    match response {
        Err(e) => Err(e),
        Ok(b) => load_image(b.as_slice()),
    }
}

/// What a fetch is for, which words its failure notices.
#[derive(Clone, Copy, Debug, PartialEq, Eq, Structural)]
pub enum FetchKind {
    /// A page's image; retried after 100 ms.
    PageImage,
    /// A chapter's reading page; retried after 50 ms.
    ChapterPage,
}

/// The operator notice for a failed attempt of kind `kind` with cause `cause`.
pub open spec fn notice_of(kind: FetchKind, cause: Seq<char>) -> Seq<char> {
    match kind {
        FetchKind::PageImage => cause + "\nFailed to download image, Retrying..."@,
        FetchKind::ChapterPage => "Error: "@ + cause + ", Retrying!"@,
    }
}

/// The fixed wait, in milliseconds, between attempts of kind `kind`.
pub open spec fn delay_of(kind: FetchKind) -> u64 {
    match kind {
        FetchKind::PageImage => 100,
        FetchKind::ChapterPage => 50,
    }
}

/// What to do after an attempt.
#[derive(Debug)]
pub enum RetryAction<P> {
    /// The attempt succeeded: hand on its payload and stop.
    Deliver(P),
    /// The attempt failed: report `notice`, wait `delay_ms`, and try again.
    Retry { notice: String, delay_ms: u64 },
}

/// The state of one retrying fetch: its kind and how many attempts failed.
#[derive(Clone, Copy, Debug, PartialEq, Eq, Structural)]
pub struct Retrier {
    pub kind: FetchKind,
    pub failures: u64,
}

impl Retrier {
    /// A fetch of kind `kind` that has not failed yet.
    pub fn new(kind: FetchKind) -> (r: Retrier)
        ensures
            r.kind == kind,
            r.failures == 0,
    {
        Retrier { kind, failures: 0 }
    }

    /// The wait between attempts, in milliseconds.
    pub fn delay_ms(&self) -> (r: u64)
        ensures
            r == delay_of(self.kind),
    {
        match self.kind {
            FetchKind::PageImage => 100,
            FetchKind::ChapterPage => 50,
        }
    }

    /// Decides after an attempt: a success is delivered as it is; a failure
    /// is counted (up to `u64::MAX`) and answered with its notice and the
    /// fixed wait, never with giving up.
    pub fn step<P>(&mut self, outcome: Result<P, String>) -> (r: RetryAction<P>)
        ensures
            final(self).kind == old(self).kind,
            outcome matches Ok(p) ==> r == RetryAction::Deliver(p) && final(self).failures == old(self).failures,
            outcome matches Err(e) ==> {
                &&& r matches RetryAction::Retry { notice, delay_ms }
                &&& notice@ == notice_of(old(self).kind, e@)
                &&& delay_ms == delay_of(old(self).kind)
                &&& final(self).failures == if old(self).failures < u64::MAX {
                    old(self).failures + 1
                } else {
                    old(self).failures as int
                }
            },
    {
        match outcome {
            Ok(p) => RetryAction::Deliver(p),
            Err(e) => {
                if self.failures < u64::MAX {
                    self.failures = self.failures + 1;
                }
                let mut notice = String::new();
                match self.kind {
                    FetchKind::PageImage => {
                        push_text(&mut notice, e.as_str());
                        push_text(&mut notice, "\nFailed to download image, Retrying...");
                    },
                    FetchKind::ChapterPage => {
                        push_text(&mut notice, "Error: ");
                        push_text(&mut notice, e.as_str());
                        push_text(&mut notice, ", Retrying!");
                    },
                }
                proof {
                    assert(notice@ =~= notice_of(self.kind, e@));
                }
                RetryAction::Retry { notice, delay_ms: self.delay_ms() }
            },
        }
    }
}

} // verus!
