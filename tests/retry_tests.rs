use mangadl_rs::retry::{decode_page, FetchKind, RetryAction, Retrier};

fn drive<P>(retrier: &mut Retrier, outcomes: Vec<Result<P, String>>, notices: &mut Vec<String>) -> Option<P> {
    for outcome in outcomes {
        match retrier.step(outcome) {
            RetryAction::Deliver(p) => return Some(p),
            RetryAction::Retry { notice, delay_ms } => {
                assert_eq!(delay_ms, retrier.delay_ms());
                notices.push(notice);
            }
        }
    }
    None
}

#[test]
fn two_failures_then_success() {
    let mut r = Retrier::new(FetchKind::PageImage);
    let mut notices = Vec::new();
    let got = drive(&mut r, vec![Err("timeout".to_string()), Err("reset".to_string()), Ok(42u32)], &mut notices);
    assert_eq!(got, Some(42));
    assert_eq!(notices.len(), 2);
    assert_eq!(notices[0], "timeout\nFailed to download image, Retrying...");
    assert_eq!(notices[1], "reset\nFailed to download image, Retrying...");
    assert_eq!(r.failures, 2);
}

#[test]
fn chapter_fetch_notice_and_delay() {
    let mut r = Retrier::new(FetchKind::ChapterPage);
    match r.step::<u8>(Err("dns".to_string())) {
        RetryAction::Retry { notice, delay_ms } => {
            assert_eq!(notice, "Error: dns, Retrying!");
            assert_eq!(delay_ms, 50);
        }
        RetryAction::Deliver(_) => panic!("a failure was delivered"),
    }
    assert_eq!(Retrier::new(FetchKind::PageImage).delay_ms(), 100);
}

#[test]
fn immediate_success_counts_no_failure() {
    let mut r = Retrier::new(FetchKind::PageImage);
    let mut notices = Vec::new();
    assert_eq!(drive(&mut r, vec![Ok("page")], &mut notices), Some("page"));
    assert!(notices.is_empty());
    assert_eq!(r.failures, 0);
}

#[test]
fn failure_count_saturates() {
    let mut r = Retrier { kind: FetchKind::PageImage, failures: u64::MAX };
    let _ = r.step::<u8>(Err("e".to_string()));
    assert_eq!(r.failures, u64::MAX);
}

#[test]
fn transport_failure_is_handed_on() {
    assert_eq!(decode_page(Err("closed".to_string())).err(), Some("closed".to_string()));
}

#[test]
fn garbage_bytes_do_not_decode() {
    assert!(decode_page(Ok(vec![1, 2, 3, 4])).is_err());
}

#[test]
fn png_bytes_decode() {
    let img = image::DynamicImage::ImageRgb8(image::RgbImage::new(2, 3));
    let mut bytes = std::io::Cursor::new(Vec::new());
    img.write_to(&mut bytes, image::ImageOutputFormat::Png).unwrap();
    let decoded = decode_page(Ok(bytes.into_inner())).unwrap();
    assert_eq!((decoded.width(), decoded.height()), (2, 3));
}
