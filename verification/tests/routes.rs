use rp::motion_gate::{announce, FirstPoll};
use rp::persistence::cache::{CachedImage, ImageCache};
use rp::persistence::disk::{
    disk_resolve_document, disk_resolve_to_cached_image, CandidateReading, DocIdReading,
};
use rp::persistence::document::ExposureDocument;
use rp::persistence::pixels::CachedPixels;
use rp::routes::events::{
    detect_gap, end_mirrors_start, live_step, open_stream, parse_last_event_id, EventEnvelope,
    LiveEvent, StreamFrame,
};
use rp::routes::imagebytes::{
    imagebytes, IMAGEBYTES_HEADER_LEN, TRANSMISSION_I32, TRANSMISSION_U16,
};
use rp::routes::replies::{
    allowed_hosts, get_config, get_document, get_image_metadata, get_image_pixels, put_config,
    safety_gate, session_start, session_stop, ApplyFailure,
};
use serde_json::Value;

fn doc_at(file_path: &str) -> ExposureDocument {
    ExposureDocument {
        target: None,
        frame_type: None,
        id: "doc-1".to_string(),
        captured_at: "2026-04-30T00:00:00Z".to_string(),
        file_path: file_path.to_string(),
        width: 2,
        height: 2,
        camera_id: None,
        duration: None,
        max_adu: None,
        cooler_setpoint_c: None,
        sensor_temperature_c: None,
        optics: None,
        sections: serde_json::Map::new(),
    }
}

fn cached(pixels: CachedPixels, max_adu: u32) -> CachedImage {
    CachedImage::new(
        pixels,
        2,
        2,
        "/tmp/fake.fits".to_string(),
        max_adu,
        doc_at("/tmp/fake.fits"),
        Some(200),
    )
}

fn cached_u16(samples: Vec<u16>) -> CachedImage {
    cached(CachedPixels::from_u16_pixels(samples, (2, 2)).unwrap(), 65535)
}

fn cached_i32(samples: Vec<i32>) -> CachedImage {
    cached(
        CachedPixels::from_i32_pixels(samples, (2, 2), 1 << 20).unwrap(),
        1 << 20,
    )
}

fn cache_with(image: CachedImage) -> ImageCache {
    let mut cache = ImageCache::new(64, 4, "/nonexistent".to_string());
    cache.insert("doc-1", image);
    cache
}

#[test]
fn pixels_serves_u16_from_cache() {
    let mut cache = cache_with(cached_u16(vec![1, 2, 3, 4]));
    let reply = get_image_pixels("doc-1", cache.resolve("doc-1", None));
    assert_eq!(reply.status, 200);
    let payload = reply.body.unwrap();
    assert_eq!(payload.content_type, "application/imagebytes");
    let body = payload.bytes;
    assert_eq!(body.len(), IMAGEBYTES_HEADER_LEN + 4 * 2);
    assert_eq!(&body[24..28], &TRANSMISSION_U16.to_le_bytes());
    assert_eq!(&body[44..52], &[1, 0, 2, 0, 3, 0, 4, 0]);
}

#[test]
fn pixels_serves_i32_from_cache() {
    let mut cache = cache_with(cached_i32(vec![1, 2, 3, 4]));
    let reply = get_image_pixels("doc-1", cache.resolve("doc-1", None));
    assert_eq!(reply.status, 200);
    let payload = reply.body.unwrap();
    assert_eq!(payload.content_type, "application/imagebytes");
    let body = payload.bytes;
    assert_eq!(body.len(), IMAGEBYTES_HEADER_LEN + 4 * 4);
    assert_eq!(&body[24..28], &TRANSMISSION_I32.to_le_bytes());
    let mut expected = Vec::new();
    for v in [1i32, 2, 3, 4] {
        expected.extend_from_slice(&v.to_le_bytes());
    }
    assert_eq!(&body[44..], &expected[..]);
}

#[test]
fn samples_read_back_from_the_wire() {
    let wide = vec![-1, i32::MIN, i32::MAX, 258];
    let body = get_image_pixels("x", Some(&cached_i32(wide.clone()))).body.unwrap().bytes;
    let read: Vec<i32> = body[44..]
        .chunks(4)
        .map(|c| i32::from_le_bytes([c[0], c[1], c[2], c[3]]))
        .collect();
    assert_eq!(read, wide);
    let narrow = vec![0u16, 255, 256, 65535];
    let body = get_image_pixels("x", Some(&cached_u16(narrow.clone()))).body.unwrap().bytes;
    let read: Vec<u16> = body[44..]
        .chunks(2)
        .map(|c| u16::from_le_bytes([c[0], c[1]]))
        .collect();
    assert_eq!(read, narrow);
}

#[test]
fn pixels_returns_404_on_cache_miss() {
    let mut cache = ImageCache::new(64, 4, "/nonexistent".to_string());
    let reply = get_image_pixels("missing", cache.resolve("missing", None));
    assert_eq!(reply.status, 404);
    assert_eq!(
        reply.body.unwrap_err(),
        "document not found: missing".to_string()
    );
}

#[test]
fn metadata_reports_bitpix_16_for_u16_cached() {
    let mut cache = cache_with(cached_u16(vec![0; 4]));
    let reply = get_image_metadata("doc-1", cache.resolve("doc-1", None), None);
    assert_eq!(reply.status, 200);
    let body = match reply.body {
        Ok(body) => body,
        Err(e) => panic!("{e}"),
    };
    assert_eq!(body.bitpix, Some(16));
    assert!(body.in_cache);
    assert_eq!(body.document_id, "doc-1");
    assert_eq!(body.fits_path, "/tmp/fake.fits");
    assert_eq!(body.document_url, "/api/documents/doc-1");
}

#[test]
fn metadata_reports_bitpix_32_for_i32_cached() {
    let mut cache = cache_with(cached_i32(vec![0; 4]));
    let reply = get_image_metadata("doc-1", cache.resolve("doc-1", None), None);
    assert_eq!(reply.status, 200);
    let body = match reply.body {
        Ok(body) => body,
        Err(e) => panic!("{e}"),
    };
    assert_eq!(body.bitpix, Some(32));
    assert!(body.in_cache);
}

#[test]
fn metadata_returns_doc_with_null_bitpix_when_max_adu_null() {
    let doc_uuid = "44444444-4444-4444-4444-444444444444";
    let reading = || {
        let mut doc = doc_at("/data/44444444.fits");
        doc.id = doc_uuid.to_string();
        CandidateReading {
            fits_path: "/data/44444444.fits".to_string(),
            doc_id: DocIdReading::Present(doc_uuid.to_string()),
            sidecar: Some(doc),
            json_nbytes: Some(200),
            pixels: Some((vec![0; 4], 2, 2)),
        }
    };
    let mut cache = ImageCache::new(64, 4, "/data".to_string());
    let image = disk_resolve_to_cached_image(vec![reading()], doc_uuid);
    let cached = cache.resolve(doc_uuid, image);
    assert!(cached.is_none());
    let doc = disk_resolve_document(vec![reading()], doc_uuid);
    let reply = get_image_metadata(doc_uuid, cached, doc.as_ref());
    assert_eq!(reply.status, 200);
    let body = match reply.body {
        Ok(body) => body,
        Err(e) => panic!("{e}"),
    };
    assert!(
        body.bitpix.is_none(),
        "bitpix must be null for max_adu=null docs, got {:?}",
        body.bitpix
    );
    assert!(!body.in_cache);
    assert_eq!(body.width, 2);
    assert_eq!(body.height, 2);
}

#[test]
fn metadata_returns_404_on_cache_miss() {
    let reply = get_image_metadata("missing", None, None);
    assert_eq!(reply.status, 404);
}

#[test]
fn imagebytes_header_layout_u16() {
    let body = imagebytes(4, 3, TRANSMISSION_U16, &vec![1u8, 2, 3, 4]);
    assert_eq!(body.len(), IMAGEBYTES_HEADER_LEN + 4);
    // metadata_version = 1
    assert_eq!(&body[0..4], &1i32.to_le_bytes());
    // data_start = 44
    assert_eq!(&body[16..20], &44i32.to_le_bytes());
    // image_element_type = 2
    assert_eq!(&body[20..24], &2i32.to_le_bytes());
    // transmission_element_type = 8 (U16)
    assert_eq!(&body[24..28], &8i32.to_le_bytes());
    // rank = 2
    assert_eq!(&body[28..32], &2i32.to_le_bytes());
    // dim1 = 4
    assert_eq!(&body[32..36], &4i32.to_le_bytes());
    // dim2 = 3
    assert_eq!(&body[36..40], &3i32.to_le_bytes());
    // dim3 = 0
    assert_eq!(&body[40..44], &0i32.to_le_bytes());
    // payload
    assert_eq!(&body[44..48], &[1u8, 2, 3, 4]);
}

#[test]
fn imagebytes_header_layout_i32() {
    let body = imagebytes(2, 2, TRANSMISSION_I32, &vec![]);
    assert_eq!(body.len(), IMAGEBYTES_HEADER_LEN);
    assert_eq!(&body[24..28], &2i32.to_le_bytes());
}

#[test]
fn imagebytes_keeps_every_bit_of_a_dimension() {
    let body = imagebytes(u32::MAX, 0x8000_0001, -2, &vec![]);
    assert_eq!(&body[24..28], &(-2i32).to_le_bytes());
    assert_eq!(&body[32..36], &u32::MAX.to_le_bytes());
    assert_eq!(&body[36..40], &0x8000_0001u32.to_le_bytes());
}

#[test]
fn detect_gap_none_without_cursor() {
    assert!(detect_gap(None, Some(5)).is_none());
    assert!(detect_gap(None, None).is_none());
}

#[test]
fn detect_gap_none_when_next_expected_event_retained() {
    assert!(detect_gap(Some(5), Some(6)).is_none());
    assert!(detect_gap(Some(0), Some(1)).is_none());
}

#[test]
fn detect_gap_some_when_history_evicted_past_cursor() {
    let gap = detect_gap(Some(5), Some(10)).unwrap();
    assert_eq!(gap.requested_after, 5);
    assert_eq!(gap.oldest_available, 10);
    // Boundary: cursor 5, oldest 7 → event 6 evicted, still a gap.
    assert!(detect_gap(Some(5), Some(7)).is_some());
}

#[test]
fn detect_gap_none_when_history_empty() {
    assert!(detect_gap(Some(42), None).is_none());
}

#[test]
fn detect_gap_does_not_overflow_on_max_cursor() {
    assert!(detect_gap(Some(u64::MAX), Some(10)).is_none());
    assert!(detect_gap(Some(u64::MAX - 1), Some(u64::MAX)).is_none());
}

#[test]
fn last_event_id_from_header() {
    assert_eq!(parse_last_event_id(Some(b"1247"), None), Some(1247));
}

#[test]
fn last_event_id_header_wins_over_query() {
    assert_eq!(parse_last_event_id(Some(b"1247"), Some(99)), Some(1247));
}

#[test]
fn last_event_id_falls_back_to_query() {
    assert_eq!(parse_last_event_id(None, Some(99)), Some(99));
}

#[test]
fn last_event_id_none_when_absent_or_unparseable() {
    assert_eq!(parse_last_event_id(None, None), None);
    assert_eq!(parse_last_event_id(Some(b"not-a-number"), None), None);
}

#[test]
fn last_event_id_reads_numbers_as_text_does() {
    for text in [
        "0", "+7", " 12 ", "\t12\t", "", "+", "-1", "1 2", "007", "18446744073709551615",
        "18446744073709551616", "99999999999999999999999999", "1.0", "12a", "++1",
    ] {
        assert_eq!(
            parse_last_event_id(Some(text.as_bytes()), None),
            text.trim().parse::<u64>().ok(),
            "{text:?}"
        );
    }
    // A byte that no header text has spoils the header, not the query.
    assert_eq!(parse_last_event_id(Some(b"12\x01"), Some(3)), Some(3));
    assert_eq!(parse_last_event_id(Some("12é".as_bytes()), Some(3)), Some(3));
}

fn envelope(event_seq: u64, event: &str) -> EventEnvelope {
    EventEnvelope {
        event_id: format!("e-{event_seq}"),
        event_seq,
        event: event.to_string(),
        operation_id: None,
        started_at: None,
        ended_at: None,
        elapsed_ms: None,
        predicted_duration_ms: None,
        max_duration_ms: None,
        payload: Value::Null,
    }
}

#[test]
fn a_stream_opens_with_the_gap_and_then_replays() {
    let frames = open_stream(Some(5), Some(10), vec![envelope(10, "a"), envelope(11, "b")]);
    assert_eq!(frames.len(), 3);
    match &frames[0] {
        StreamFrame::Gap(gap) => assert_eq!((gap.requested_after, gap.oldest_available), (5, 10)),
        _ => panic!("the gap comes first"),
    }
    assert_eq!(frames[0].label(true), (None, "stream_gap".to_string()));
    assert_eq!(frames[1].label(true), (Some(10), "a".to_string()));
    assert_eq!(frames[2].label(true), (Some(11), "b".to_string()));
    assert_eq!(frames[2].label(false), (None, "stream_error".to_string()));

    let frames = open_stream(Some(9), Some(10), vec![envelope(10, "a")]);
    assert_eq!(frames.len(), 1);
    assert!(open_stream(None, None, vec![]).is_empty());
}

#[test]
fn lagged_consumer_gets_stream_gap_then_disconnect() {
    let step = live_step(LiveEvent::Lagged(144));
    assert!(step.ends);
    match step.frame {
        Some(StreamFrame::Lagged(missed)) => {
            assert_eq!(missed, 144);
            assert_eq!(
                StreamFrame::Lagged(missed).label(true),
                (None, "stream_gap".to_string())
            );
        }
        _ => panic!("a lagged consumer must receive a stream_gap frame"),
    }
}

#[test]
fn the_live_tail_passes_events_on_until_it_ends() {
    let step = live_step(LiveEvent::Received(envelope(3, "slew_started")));
    assert!(!step.ends);
    assert_eq!(
        step.frame.unwrap().label(true),
        (Some(3), "slew_started".to_string())
    );
    for event in [LiveEvent::Shutdown, LiveEvent::Closed] {
        let step = live_step(event);
        assert!(step.ends);
        assert!(step.frame.is_none());
    }
}

fn operation(event: &str, seq: u64) -> EventEnvelope {
    let mut e = envelope(seq, event);
    e.operation_id = Some("op-1".to_string());
    e.started_at = Some("2026-05-03T22:00:00Z".to_string());
    e
}

fn ended(event: &str, seq: u64) -> EventEnvelope {
    let mut e = operation(event, seq);
    e.ended_at = Some("2026-05-03T22:00:01Z".to_string());
    e.elapsed_ms = Some(1000);
    e
}

#[test]
fn the_end_of_an_operation_mirrors_its_start() {
    let mut start = operation("slew_started", 1);
    start.predicted_duration_ms = Some(10);
    start.max_duration_ms = Some(20);
    let end = ended("slew_complete", 2);
    assert!(end_mirrors_start(&start, &end));

    let mut other = ended("slew_complete", 2);
    other.operation_id = Some("op-2".to_string());
    assert!(!end_mirrors_start(&start, &other));
    let mut same_event = ended("slew_complete", 2);
    same_event.event_id = start.event_id.clone();
    assert!(!end_mirrors_start(&start, &same_event));
    assert!(!end_mirrors_start(&start, &ended("slew_complete", 1)));
    let mut predicting = ended("slew_complete", 2);
    predicting.predicted_duration_ms = Some(1);
    assert!(!end_mirrors_start(&start, &predicting));

    // Guiding predicts only where it has a timeout; flats never do.
    let mut guide = operation("guide_started", 1);
    assert!(end_mirrors_start(&guide, &ended("guide_complete", 2)));
    guide.max_duration_ms = Some(5);
    assert!(!end_mirrors_start(&guide, &ended("guide_complete", 2)));
    guide.predicted_duration_ms = Some(5);
    assert!(end_mirrors_start(&guide, &ended("guide_complete", 2)));
    let mut flat = operation("flat_started", 1);
    flat.predicted_duration_ms = Some(5);
    assert!(!end_mirrors_start(&flat, &ended("flat_complete", 2)));
}

#[test]
fn mcp_gate_rejects_with_503_while_unsafe_and_lifts_after() {
    let gated = safety_gate("/mcp", false).unwrap();
    assert_eq!(gated.status, 503);
    assert_eq!(
        gated.body,
        Err("safety: conditions are unsafe; the workflow was cancelled".to_string())
    );
    assert!(
        safety_gate("/mcp", true).is_none(),
        "requests must pass once conditions are safe again"
    );
    // Only the tool server closes; the rest keeps answering while unsafe.
    assert!(safety_gate("/health", false).is_none());
    assert!(safety_gate("/api/config", false).is_none());
    assert!(safety_gate("/api/config/schema", false).is_none());
}

#[test]
fn everything_below_the_tool_server_closes_with_it() {
    for path in ["/mcp", "/mcp/", "/mcp/session"] {
        assert!(safety_gate(path, false).is_some(), "{path}");
        assert!(safety_gate(path, true).is_none(), "{path}");
    }
    for path in ["", "/", "/mcpx", "/api/mcp", "/MCP"] {
        assert!(safety_gate(path, false).is_none(), "{path}");
    }
}

#[test]
fn extra_hosts_extend_the_defaults() {
    let hosts = allowed_hosts(
        vec!["localhost".to_string(), "127.0.0.1".to_string()],
        vec!["observatory.example".to_string()],
    );
    assert_eq!(hosts, vec!["localhost", "127.0.0.1", "observatory.example"]);
}

#[test]
fn config_put_malformed_body_is_400_plain_text() {
    let reply = put_config::<u32>(Err(ApplyFailure::Parse("invalid config JSON: x".to_string())));
    assert_eq!(reply.status, 400);
    assert!(reply.body.unwrap_err().contains("invalid config JSON"));
}

#[test]
fn config_put_persist_failure_is_500() {
    let reply = put_config::<u32>(Err(ApplyFailure::Internal("is a directory".to_string())));
    assert_eq!(reply.status, 500);
    assert_eq!(reply.body, Err("is a directory".to_string()));
    let reply = put_config::<u32>(Ok(7));
    assert_eq!((reply.status, reply.body), (200, Ok(7)));
}

#[test]
fn config_and_session_answers_carry_their_status() {
    let reply = get_config::<u32>(Err("no".to_string()));
    assert_eq!(reply.status, 500);
    assert_eq!(reply.body, Err("failed to serialize config: no".to_string()));
    assert_eq!(get_config(Ok(1)).status, 200);
    assert_eq!(session_start(Ok(1)).status, 200);
    let refused = session_start::<u32>(Err("already running".to_string()));
    assert_eq!((refused.status, refused.body), (409, Err("already running".to_string())));
    let stopped = session_stop(Ok(()));
    assert_eq!((stopped.status, stopped.body), (200, Ok("stopped".to_string())));
    assert_eq!(session_stop(Err("x".to_string())).status, 500);
}

#[test]
fn documents_are_answered_by_what_was_found() {
    let missing = get_document::<u32>("abc", None);
    assert_eq!(missing.status, 404);
    assert_eq!(missing.body, Err("document not found: abc".to_string()));
    assert_eq!(get_document("abc", Some(Ok(3))).status, 200);
    let broken = get_document::<u32>("abc", Some(Err("bad".to_string())));
    assert_eq!((broken.status, broken.body), (500, Err("bad".to_string())));
}

#[test]
fn exclusive_on_a_free_gate_emits_no_pending_event() {
    assert!(
        announce("slew", FirstPoll::Ready).is_none(),
        "an uncontended exclusive acquire must not announce itself"
    );
}

#[test]
fn a_motion_that_waits_announces_itself() {
    let pending = announce("dither", FirstPoll::Pending).unwrap();
    assert_eq!(pending.event, "mount_motion_pending");
    assert_eq!(pending.operation, "dither");
}
