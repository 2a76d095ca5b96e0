//! The choices that steer a download: how to save, how many workers.
use vstd::prelude::*;
use crate::text::{is_unsigned_text, parse_unsigned, unsigned_value};

verus! {

/// The shape of what a download produces.
#[derive(Clone, Copy, Debug, PartialEq, Eq, Structural)]
pub enum SaveType {
    /// Every page as an image file in one folder.
    Images,
    /// Every page as an image file in a folder per chapter.
    ImagesChapter,
    /// One PDF document per chapter.
    PdfSplit,
    /// One PDF document for every page.
    PdfSingle,
    /// A text file with the address of every page.
    Urls,
}

impl SaveType {
    /// A short plain name of the choice.
    pub fn name(&self) -> (r: &'static str)
        ensures
            r@ == match self {
                SaveType::Images => "Images Single Folder"@,
                SaveType::ImagesChapter => "Images by Chapter"@,
                SaveType::PdfSplit => "Split PDFs"@,
                SaveType::PdfSingle => "Single PDF"@,
                SaveType::Urls => "URLs"@,
            },
    {
        match self {
            SaveType::Images => "Images Single Folder",
            SaveType::ImagesChapter => "Images by Chapter",
            SaveType::PdfSplit => "Split PDFs",
            SaveType::PdfSingle => "Single PDF",
            SaveType::Urls => "URLs",
        }
    }

    /// Whether the pages' images are fetched; only the address list is not.
    pub fn fetches_images(&self) -> (r: bool)
        ensures
            r == !(self == SaveType::Urls),
    {
        match self {
            SaveType::Urls => false,
            _ => true,
        }
    }
}

/// Whether pages are fetched by one worker or by several.
#[derive(Clone, Copy, Debug, PartialEq, Eq, Structural)]
pub enum DownloadType {
    Single,
    Multi,
}

impl DownloadType {
    /// A short plain name of the choice.
    pub fn name(&self) -> (r: &'static str)
        ensures
            r@ == match self {
                DownloadType::Single => "Single-Threaded"@,
                DownloadType::Multi => "Multi-Threaded"@,
            },
    {
        match self {
            DownloadType::Single => "Single-Threaded",
            DownloadType::Multi => "Multi-Threaded",
        }
    }
}

/// Why a worker count was refused.
#[derive(Clone, Copy, Debug, PartialEq, Eq, Structural)]
pub enum ThreadError {
    /// The text is not a number from 0 to 255.
    NotANumber,
    /// The count is 0.
    Zero,
}

impl ThreadError {
    /// What to tell the operator.
    pub fn message(&self) -> (r: &'static str)
        ensures
            r@ == match self {
                ThreadError::NotANumber => "invalid digit found in string"@,
                ThreadError::Zero => "Amount of threads must be larger then 0"@,
            },
    {
        match self {
            ThreadError::NotANumber => "invalid digit found in string",
            ThreadError::Zero => "Amount of threads must be larger then 0",
        }
    }
}

/// A number of workers, at least one.
#[derive(Clone, Copy, Debug, PartialEq, Eq)]
pub struct Thread {
    amount: u8,
}

impl Thread {
    /// The number of workers.
    pub closed spec fn count(self) -> u8 {
        self.amount
    }

    #[verifier::type_invariant]
    spec fn at_least_one(self) -> bool {
        self.amount > 0
    }

    /// A count of `amount` workers; refused when `amount` is 0.
    pub fn new(amount: u8) -> (r: Result<Thread, ThreadError>)
        ensures
            amount > 0 ==> (r matches Ok(t) && t.count() == amount),
            amount == 0 ==> r == Err::<Thread, ThreadError>(ThreadError::Zero),
    {
        if amount > 0 {
            Ok(Thread { amount })
        } else {
            Err(ThreadError::Zero)
        }
    }

    /// The number of workers, at least one.
    pub fn get(&self) -> (r: u8)
        ensures
            r == self.count(),
            r > 0,
    {
        proof { use_type_invariant(self); }
        self.amount
    }

    /// Reads a count of workers from text: an unsigned number from 1 to 255.
    pub fn parse(s: &str) -> (r: Result<Thread, ThreadError>)
        ensures
            !(is_unsigned_text(s@) && unsigned_value(s@) <= 255)
                ==> r == Err::<Thread, ThreadError>(ThreadError::NotANumber),
            is_unsigned_text(s@) && unsigned_value(s@) == 0
                ==> r == Err::<Thread, ThreadError>(ThreadError::Zero),
            is_unsigned_text(s@) && 1 <= unsigned_value(s@) <= 255
                ==> (r matches Ok(t) && t.count() == unsigned_value(s@)),
    {
        match parse_unsigned(s, 255) {
            None => Err(ThreadError::NotANumber),
            Some(n) => Thread::new(n as u8),
        }
    }
}

/// How many workers fetch the pages: one for a single-threaded download,
/// `threads` otherwise.
pub fn fetch_lanes(download_type: DownloadType, threads: Thread) -> (r: usize)
    ensures
        r == match download_type {
            DownloadType::Single => 1,
            DownloadType::Multi => threads.count() as int,
        },
        r >= 1,
{
    match download_type {
        DownloadType::Single => 1,
        DownloadType::Multi => threads.get() as usize,
    }
}

} // verus!
