use ublk_azblob::backend::azure::{
    check_change, check_create, check_read, chunks_per_batch, classify, container_ready,
    copy_concurrency, create_next, deleted, extract_tag_u64, is_retryable, page_list_query,
    parse_next_marker, parse_page_ranges, plan_copy, CopyStep, CreateNext, PageListError,
    PageListing, Retry, TagError, AZURE_OP_ATTEMPTS,
};
use ublk_azblob::backend::BackendError;
use ublk_azblob::coordination::LockError;

#[test]
fn parse_next_marker_present_and_absent() {
    // A non-empty marker is returned for continuation.
    let with = "<PageList><NextMarker>2!abc=</NextMarker></PageList>";
    assert_eq!(parse_next_marker(with).as_deref(), Some("2!abc="));
    // An empty (or self-closing) marker means the last page.
    assert_eq!(parse_next_marker("<PageList><NextMarker></NextMarker></PageList>"), None);
    assert_eq!(parse_next_marker("<PageList><NextMarker /></PageList>"), None);
    assert_eq!(parse_next_marker("<PageList />"), None);
}

#[test]
fn parse_empty_page_list() {
    let body = r#"<?xml version="1.0" encoding="utf-8"?><PageList />"#;
    assert!(parse_page_ranges(body).unwrap().is_empty());
}

#[test]
fn parse_single_range_inclusive_to_len() {
    let body = "<PageList><PageRange><Start>0</Start><End>511</End></PageRange></PageList>";
    // Inclusive [0, 511] => offset 0, len 512.
    assert_eq!(parse_page_ranges(body).unwrap(), vec![(0, 512)]);
}

#[test]
fn parse_multiple_ranges_sorted() {
    let body = "<PageList>\
        <PageRange><Start>1024</Start><End>2047</End></PageRange>\
        <PageRange><Start>0</Start><End>511</End></PageRange>\
        </PageList>";
    assert_eq!(parse_page_ranges(body).unwrap(), vec![(0, 512), (1024, 1024)]);
}

#[test]
fn parse_ignores_clear_ranges() {
    let body = "<PageList>\
        <PageRange><Start>0</Start><End>511</End></PageRange>\
        <ClearRange><Start>512</Start><End>1023</End></ClearRange>\
        </PageList>";
    assert_eq!(parse_page_ranges(body).unwrap(), vec![(0, 512)]);
}

#[test]
fn parse_rejects_inverted_range() {
    let body = "<PageList><PageRange><Start>512</Start><End>0</End></PageRange></PageList>";
    assert!(parse_page_ranges(body).is_err());
}

#[test]
fn extract_tag_handles_whitespace() {
    assert_eq!(extract_tag_u64("<Start> 42 </Start>", "Start").unwrap(), 42);
    assert!(extract_tag_u64("<Start>42</Start>", "End").is_err());
}

#[test]
fn tags_say_what_is_missing() {
    assert_eq!(extract_tag_u64("<Start>42", "Start"), Err(TagError::Missing));
    assert_eq!(extract_tag_u64("<Start>x</Start>", "Start"), Err(TagError::Value));
    assert_eq!(
        extract_tag_u64("<Start>18446744073709551616</Start>", "Start"),
        Err(TagError::Value)
    );
}

#[test]
fn page_lists_say_what_is_wrong() {
    assert_eq!(parse_page_ranges("<PageRange><Start>0</Start>"), Err(PageListError::Unterminated));
    assert_eq!(
        parse_page_ranges("<PageRange><End>0</End></PageRange>"),
        Err(PageListError::Start)
    );
    assert_eq!(
        parse_page_ranges("<PageRange><Start>0</Start></PageRange>"),
        Err(PageListError::End)
    );
    assert_eq!(
        parse_page_ranges("<PageRange><Start>1</Start><End>0</End></PageRange>"),
        Err(PageListError::Inverted)
    );
    assert_eq!(
        parse_page_ranges(
            "<PageRange><Start>0</Start><End>18446744073709551615</End></PageRange>"
        ),
        Err(PageListError::TooLong)
    );
}

#[test]
fn a_listing_spans_pages() {
    let mut l = PageListing::new();
    let first = "<PageList><PageRange><Start>1024</Start><End>1535</End></PageRange>\
        <NextMarker> m1 </NextMarker></PageList>";
    assert_eq!(l.page(first).unwrap().as_deref(), Some("m1"));
    let last = "<PageList><PageRange><Start>0</Start><End>511</End></PageRange></PageList>";
    assert_eq!(l.page(last).unwrap(), None);
    assert_eq!(l.finish(), vec![(0, 512), (1024, 512)]);
    assert_eq!(
        page_list_query(&Some("s".to_string()), &Some("m".to_string())),
        vec![
            ("comp".to_string(), "pagelist".to_string()),
            ("snapshot".to_string(), "s".to_string()),
            ("marker".to_string(), "m".to_string()),
        ]
    );
    assert_eq!(page_list_query(&None, &None).len(), 1);
}

#[test]
fn retryable_covers_throttling_5xx_and_transport_only() {
    for s in [408u16, 429, 500, 502, 503, 504] {
        assert!(is_retryable(Some(s)), "{s} must be retryable");
    }
    for s in [200u16, 401, 403, 404, 412, 416] {
        assert!(!is_retryable(Some(s)), "{s} must NOT be retryable");
    }
    // No HTTP status means a transport or I/O error, which is retryable.
    assert!(is_retryable(None));
}

/// Drive an operation the way a caller does: try, and on a failure ask whether to
/// try again.
fn with_retry<F: FnMut() -> Result<u32, Option<u16>>>(mut op: F) -> Result<u32, Option<u16>> {
    let mut retry = Retry::new();
    loop {
        match op() {
            Ok(v) => return Ok(v),
            Err(status) => {
                if retry.failed(status, 0).is_none() {
                    return Err(status);
                }
            }
        }
    }
}

#[test]
fn with_retry_returns_first_success() {
    let mut calls = 0u32;
    let out = with_retry(|| {
        calls += 1;
        Ok(7)
    });
    assert_eq!(out.unwrap(), 7);
    assert_eq!(calls, 1, "success must not retry");
}

#[test]
fn with_retry_recovers_after_transient_failures() {
    let mut calls = 0u32;
    let out = with_retry(|| {
        calls += 1;
        if calls < 3 {
            Err(Some(503))
        } else {
            Ok(42)
        }
    });
    assert_eq!(out.unwrap(), 42);
    assert_eq!(calls, 3, "should succeed on the 3rd attempt");
}

#[test]
fn with_retry_gives_up_after_max_attempts() {
    let mut calls = 0u32;
    let out = with_retry(|| {
        calls += 1;
        Err(Some(503))
    });
    assert!(out.is_err());
    assert_eq!(calls, AZURE_OP_ATTEMPTS, "must stop at the attempt cap");
}

#[test]
fn with_retry_does_not_retry_client_errors() {
    let mut calls = 0u32;
    let out = with_retry(|| {
        calls += 1;
        Err(Some(404))
    });
    assert!(out.is_err());
    assert_eq!(calls, 1, "a 404 must fail fast without retrying");
}

#[test]
fn backoff_doubles_up_to_its_limit() {
    let mut retry = Retry::new();
    let mut waits = Vec::new();
    while let Some(w) = retry.failed(None, 130) {
        waits.push(w - 2);
    }
    assert_eq!(waits.len() as u32, AZURE_OP_ATTEMPTS - 1);
    assert_eq!(waits, vec![200, 400, 800, 1600]);
}

#[test]
fn a_copy_plan_covers_the_blob_once() {
    let plan = plan_copy(2560, 1024, None).unwrap();
    assert_eq!(
        plan,
        vec![
            CopyStep { offset: 0, len: 1024, copy: true },
            CopyStep { offset: 1024, len: 1024, copy: true },
            CopyStep { offset: 2048, len: 512, copy: true },
        ]
    );
    let sparse = plan_copy(2048, 1024, Some(&vec![(1024, 512)])).unwrap();
    assert!(!sparse[0].copy);
    assert!(sparse[1].copy);
    assert!(plan_copy(100, 1024, None).is_err());
}

#[test]
fn copies_are_batched() {
    assert_eq!(chunks_per_batch(4 * 1024 * 1024, 16), 2048);
    assert_eq!(chunks_per_batch(u64::MAX, 16), 16);
    assert_eq!(copy_concurrency(Some("3"), 8), 3);
    assert_eq!(copy_concurrency(Some("0"), 8), 8);
    assert_eq!(copy_concurrency(Some("x"), 8), 8);
    assert_eq!(copy_concurrency(None, 8), 8);
}

#[test]
fn creation_keeps_a_blob_of_the_right_size() {
    assert!(check_create(true, 512).is_err());
    assert!(check_create(false, 100).is_err());
    assert!(check_create(false, 512).is_ok());
    assert!(container_ready(true, None));
    assert!(container_ready(false, Some(409)));
    assert!(!container_ready(false, Some(403)));
    assert_eq!(create_next(Ok(512), 512), CreateNext::Done);
    assert_eq!(create_next(Ok(1024), 512), CreateNext::Differs { existing: 1024 });
    assert_eq!(create_next(Err(Some(404)), 512), CreateNext::Provision);
    assert_eq!(create_next(Err(None), 512), CreateNext::Unknown);
    assert!(deleted(true, None));
    assert!(deleted(false, Some(404)));
    assert!(!deleted(false, Some(500)));
}

#[test]
fn snapshots_refuse_changes() {
    assert!(check_read(0, 512).is_ok());
    assert!(check_read(1, 512).is_err());
    assert!(check_change(false, 0, 512).is_ok());
    assert!(check_change(true, 0, 512).is_err());
    assert!(matches!(check_change(false, 0, 100), Err(BackendError::Misaligned { .. })));
}

#[test]
fn lease_conflicts_are_told_apart() {
    assert!(matches!(classify(Some(409), "acquire", "held"), LockError::Held));
    assert!(matches!(classify(Some(412), "acquire", "held"), LockError::Held));
    assert_eq!(classify(Some(409), "acquire", "held").message(), "blob lease is already held");
    assert_eq!(classify(Some(500), "acquire", "boom").message(), "acquire: boom");
    assert_eq!(classify(None, "renew", "reset").message(), "renew: reset");
}
