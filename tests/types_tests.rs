use mangadl_rs::args::{get_encoding, help_lines, help_requested, Encoding};
use mangadl_rs::types::{fetch_lanes, DownloadType, SaveType, Thread, ThreadError};

fn args(v: &[&str]) -> Vec<String> {
    v.iter().map(|s| s.to_string()).collect()
}

#[test]
fn encoding_follows_the_ascii_flag() {
    assert_eq!(get_encoding(&args(&["prog", "--ascii"])), Encoding::Ascii);
    assert_eq!(get_encoding(&args(&["prog"])), Encoding::Unicode);
    assert_eq!(get_encoding(&args(&["prog", "--ascii2"])), Encoding::Unicode);
}

#[test]
fn help_flag() {
    assert!(help_requested(&args(&["prog", "--help"])));
    assert!(!help_requested(&args(&["prog", "-h"])));
    assert_eq!(help_lines()[0], "Usage: mangadl-rs [OPTIONS]");
}

#[test]
fn thread_count_must_be_positive() {
    assert_eq!(Thread::new(0), Err(ThreadError::Zero));
    assert_eq!(Thread::new(4).unwrap().get(), 4);
    assert_eq!(ThreadError::Zero.message(), "Amount of threads must be larger then 0");
}

#[test]
fn thread_count_from_text() {
    assert_eq!(Thread::parse("8").unwrap().get(), 8);
    assert_eq!(Thread::parse("255").unwrap().get(), 255);
    assert_eq!(Thread::parse("0"), Err(ThreadError::Zero));
    assert_eq!(Thread::parse("256"), Err(ThreadError::NotANumber));
    assert_eq!(Thread::parse("four"), Err(ThreadError::NotANumber));
    assert_eq!(Thread::parse(""), Err(ThreadError::NotANumber));
}

#[test]
fn lanes_for_fetching() {
    let t = Thread::new(6).unwrap();
    assert_eq!(fetch_lanes(DownloadType::Single, t), 1);
    assert_eq!(fetch_lanes(DownloadType::Multi, t), 6);
}

#[test]
fn names_of_choices() {
    assert_eq!(SaveType::PdfSplit.name(), "Split PDFs");
    assert_eq!(SaveType::Urls.name(), "URLs");
    assert_eq!(DownloadType::Multi.name(), "Multi-Threaded");
    assert!(!SaveType::Urls.fetches_images());
    assert!(SaveType::Images.fetches_images());
}
