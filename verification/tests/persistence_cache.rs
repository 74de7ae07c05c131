use rp::error::RpError;
use rp::persistence::cache::{CachedImage, FoundDocument, ImageCache};
use rp::persistence::disk::{
    disk_resolve_document, disk_resolve_to_cached_image, find_candidates_by_suffix,
    matches_uuid8_suffix, short_id, wants_pixels, CandidateReading, DocIdReading,
};
use rp::persistence::document::ExposureDocument;
use rp::persistence::pixels::CachedPixels;
use serde_json::{Number, Value};

fn dummy_document(id: &str) -> ExposureDocument {
    ExposureDocument {
        target: None,
        frame_type: None,
        id: id.to_string(),
        captured_at: "2026-04-30T00:00:00Z".to_string(),
        file_path: format!("/tmp/{id}.fits"),
        width: 0,
        height: 0,
        camera_id: None,
        duration: None,
        max_adu: None,
        cooler_setpoint_c: None,
        sensor_temperature_c: None,
        optics: None,
        sections: serde_json::Map::new(),
    }
}

fn u16_pixels(side: usize, fill: u16) -> CachedPixels {
    CachedPixels::from_u16_pixels(vec![fill; side * side], (side, side)).unwrap()
}

fn i32_pixels(side: usize, fill: i32) -> CachedPixels {
    CachedPixels::from_i32_pixels(vec![fill; side * side], (side, side), 1 << 20).unwrap()
}

fn u16_image(side: usize, fill: u16) -> CachedImage {
    CachedImage {
        pixels: u16_pixels(side, fill),
        width: side as u32,
        height: side as u32,
        fits_path: format!("/tmp/{side}.fits"),
        max_adu: 65535,
        document: dummy_document("doc"),
        json_nbytes: 0,
    }
}

fn i32_image(side: usize, fill: i32) -> CachedImage {
    CachedImage {
        pixels: i32_pixels(side, fill),
        width: side as u32,
        height: side as u32,
        fits_path: format!("/tmp/{side}.fits"),
        max_adu: 1 << 20,
        document: dummy_document("doc"),
        json_nbytes: 0,
    }
}

fn cache(max_mib: usize, max_images: usize) -> ImageCache {
    ImageCache::new(max_mib, max_images, "/nonexistent".to_string())
}

#[test]
fn insert_and_get_round_trip() {
    let mut cache = cache(100, 10);
    cache.insert("doc-1", u16_image(4, 42));

    let got = cache.get("doc-1").unwrap();
    assert_eq!(got.width, 4);
    assert_eq!(got.height, 4);
    assert_eq!(got.max_adu, 65535);
    match &got.pixels {
        CachedPixels::U16(_) => assert_eq!(got.pixels.samples()[0], 42),
        CachedPixels::I32(_) => panic!("expected u16 variant"),
    }
}

#[test]
fn miss_returns_none() {
    let mut cache = cache(100, 10);
    assert!(cache.get("nope").is_none());
}

#[test]
fn is_empty_tracks_population() {
    let mut cache = cache(100, 10);
    assert!(cache.is_empty());
    cache.insert("doc-1", u16_image(4, 0));
    assert!(!cache.is_empty());
}

#[test]
fn replacing_same_id_does_not_double_count_bytes() {
    let mut cache = cache(100, 10);
    cache.insert("doc-1", u16_image(4, 1));
    let bytes_after_first = cache.bytes();
    cache.insert("doc-1", u16_image(4, 2));
    assert_eq!(cache.bytes(), bytes_after_first);
    assert_eq!(cache.len(), 1);
}

#[test]
fn evicts_when_image_count_exceeds_cap() {
    let mut cache = cache(1024, 2);
    cache.insert("doc-1", u16_image(2, 1));
    cache.insert("doc-2", u16_image(2, 2));
    cache.insert("doc-3", u16_image(2, 3));
    assert_eq!(cache.len(), 2);
    assert!(cache.get("doc-1").is_none());
    assert!(cache.get("doc-2").is_some());
    assert!(cache.get("doc-3").is_some());
}

#[test]
fn evicts_when_byte_budget_exceeded() {
    let mut cache = cache(1, 100);
    cache.insert("doc-1", u16_image(512, 1)); // 0.5 MiB
    cache.insert("doc-2", u16_image(512, 2)); // 0.5 MiB total 1 MiB
    assert_eq!(cache.len(), 2);
    cache.insert("doc-3", u16_image(512, 3)); // pushes over
    assert!(
        cache.get("doc-1").is_none(),
        "doc-1 should have been evicted"
    );
    assert!(cache.get("doc-2").is_some());
    assert!(cache.get("doc-3").is_some());
}

#[test]
fn get_promotes_to_most_recently_used() {
    let mut cache = cache(1024, 2);
    cache.insert("doc-1", u16_image(2, 1));
    cache.insert("doc-2", u16_image(2, 2));
    let _ = cache.get("doc-1");
    cache.insert("doc-3", u16_image(2, 3));
    assert!(cache.get("doc-2").is_none());
    assert!(cache.get("doc-1").is_some());
    assert!(cache.get("doc-3").is_some());
}

#[test]
fn i32_variant_round_trips() {
    let mut cache = cache(100, 10);
    cache.insert("doc-i", i32_image(4, 100_000));
    let got = cache.get("doc-i").unwrap();
    match &got.pixels {
        CachedPixels::I32(_) => assert_eq!(got.pixels.samples()[0], 100_000),
        CachedPixels::U16(_) => panic!("expected i32 variant"),
    }
    assert_eq!(got.max_adu, 1 << 20);
}

#[test]
fn nbytes_accounts_for_pixel_size() {
    let u16_img = u16_image(10, 0);
    let i32_img = i32_image(10, 0);
    assert_eq!(u16_img.pixels.nbytes(), 100 * 2);
    assert_eq!(i32_img.pixels.nbytes(), 100 * 4);
}

#[test]
fn cached_image_new_includes_serialized_doc_in_nbytes() {
    let pixels = u16_pixels(4, 0);
    let pixel_bytes = pixels.nbytes();
    let doc = dummy_document("550e8400-e29b-41d4-a716-446655440000");
    let mut json = serde_json::Map::new();
    json.insert("id".to_string(), Value::String(doc.id.clone()));
    json.insert("captured_at".to_string(), Value::String(doc.captured_at.clone()));
    json.insert("file_path".to_string(), Value::String(doc.file_path.clone()));
    json.insert("width".to_string(), number(doc.width));
    json.insert("height".to_string(), number(doc.height));
    json.insert("sections".to_string(), Value::Object(serde_json::Map::new()));
    let expected_json_bytes = serde_json::to_vec(&Value::Object(json)).unwrap().len();
    let img = CachedImage::new(
        pixels,
        4,
        4,
        "/tmp/x.fits".to_string(),
        65535,
        doc,
        Some(expected_json_bytes),
    );
    assert_eq!(img.json_nbytes, expected_json_bytes);
    assert_eq!(img.nbytes(), pixel_bytes + expected_json_bytes);
}

#[test]
fn a_document_that_cannot_be_serialized_counts_for_nothing() {
    let img = CachedImage::new(
        u16_pixels(4, 0),
        4,
        4,
        "/tmp/x.fits".to_string(),
        65535,
        dummy_document("doc"),
        None,
    );
    assert_eq!(img.json_nbytes, 0);
    assert_eq!(img.nbytes(), 32);
}

#[test]
fn cached_image_new_round_trips_document() {
    let img = CachedImage::new(
        u16_pixels(2, 0),
        2,
        2,
        "/tmp/x.fits".to_string(),
        65535,
        dummy_document("doc-1"),
        Some(10),
    );
    assert_eq!(img.document.id, "doc-1");
}

#[test]
fn pixels_are_clamped_where_sixteen_bits_will_do() {
    let pixels =
        CachedPixels::from_i32_pixels(vec![-5, 0, 4095, 4096, 70_000, i32::MIN], (2, 3), 4095)
            .unwrap();
    assert_eq!(pixels.samples(), vec![0, 0, 4095, 4095, 4095, 0]);
    let wide = CachedPixels::from_i32_pixels(vec![-5, 70_000], (1, 2), 65_536).unwrap();
    assert_eq!(wide.samples(), vec![-5, 70_000]);
    match wide {
        CachedPixels::I32(_) => {}
        CachedPixels::U16(_) => panic!("expected i32 variant"),
    }
}

#[test]
fn pixels_must_fill_their_shape() {
    assert!(CachedPixels::from_u16_pixels(vec![1, 2, 3], (2, 2)).is_none());
    assert!(CachedPixels::from_u16_pixels(vec![1, 2, 3, 4, 5], (2, 2)).is_none());
    assert!(CachedPixels::from_i32_pixels(vec![1, 2, 3], (2, 2), 65_536).is_none());
    assert!(CachedPixels::from_i32_pixels(vec![1, 2, 3], (2, 2), 100).is_none());
    assert!(CachedPixels::from_u16_pixels(vec![], (0, 7)).is_some());
    assert!(CachedPixels::from_u16_pixels(vec![], (0, usize::MAX)).is_none());
    assert!(CachedPixels::from_u16_pixels(vec![], (usize::MAX, usize::MAX)).is_none());
    let kept = CachedPixels::from_u16_pixels(vec![1, 2, 3, 4, 5, 6], (2, 3)).unwrap();
    assert_eq!(kept.samples(), vec![1, 2, 3, 4, 5, 6]);
}

#[test]
fn eviction_takes_as_few_entries_as_will_do() {
    let mut cache = cache(1, 100);
    for (id, side) in [("a", 256), ("b", 256), ("c", 512)] {
        cache.insert(id, u16_image(side, 0));
    }
    // 128 KiB + 128 KiB + 512 KiB; 384 KiB more needs one of the small ones.
    let wide = CachedImage {
        pixels: CachedPixels::from_u16_pixels(vec![0; 196_608], (384, 512)).unwrap(),
        ..u16_image(1, 0)
    };
    cache.insert("d", wide);
    assert!(!cache.contains("a"));
    assert!(cache.contains("b") && cache.contains("c") && cache.contains("d"));
    assert_eq!(cache.bytes(), (128 + 512 + 384) * 1024);
}

#[test]
fn an_image_over_the_budget_leaves_at_once() {
    let mut cache = cache(1, 100);
    cache.insert("small", u16_image(16, 0));
    cache.insert("large", u16_image(1024, 0));
    assert!(cache.is_empty());
    assert_eq!(cache.bytes(), 0);
    assert!(cache.resolve("large", Some(u16_image(1024, 0))).is_none());
}

#[test]
fn matches_uuid8_suffix_handles_greenfield_and_template_forms() {
    // Greenfield: <uuid8>.fits.
    assert!(matches_uuid8_suffix("550e8400.fits", "550e8400"));
    // Template form: <base>_<uuid8>.fits.
    assert!(matches_uuid8_suffix(
        "M31_L_5m_001_550e8400.fits",
        "550e8400"
    ));
    // Substring without underscore separator → reject.
    assert!(!matches_uuid8_suffix("xyz550e8400.fits", "550e8400"));
    // Different suffix → reject.
    assert!(!matches_uuid8_suffix("deadbeef.fits", "550e8400"));
    // Wrong extension → reject.
    assert!(!matches_uuid8_suffix("550e8400.json", "550e8400"));
}

#[test]
fn test_uuid8_disk_key_matches_the_document_id_prefix() {
    for _ in 0..1_000 {
        let uuid = uuid::Uuid::new_v4();
        let written = format!("{:08x}", uuid.as_fields().0);
        let read_back = uuid.to_string();
        let read_back = short_id(&read_back).unwrap();
        assert_eq!(written, read_back, "uuid8 mismatch for {uuid}");
    }
}

#[test]
fn an_id_that_is_too_short_has_no_candidates() {
    assert_eq!(short_id("1234567"), None);
    assert_eq!(short_id("12345678"), Some("12345678".to_string()));
    // Eight bytes would end inside a character.
    assert_eq!(short_id("1234567é-rest"), None);
    let names = vec!["1234567.fits".to_string()];
    assert!(find_candidates_by_suffix(&names, "1234567").is_empty());
}

#[test]
fn candidates_come_in_the_order_of_their_names() {
    let names: Vec<String> = [
        "m31_deadbeef.fits",
        "deadbeef.json",
        "deadbeef.fits",
        "xdeadbeef.fits",
        "M31_deadbeef.fits",
    ]
    .iter()
    .map(|s| s.to_string())
    .collect();
    assert_eq!(
        find_candidates_by_suffix(&names, "deadbeef-1111-1111-1111-111111111111"),
        vec!["M31_deadbeef.fits", "deadbeef.fits", "m31_deadbeef.fits"]
    );
}

fn on_disk(path: &str, header: DocIdReading, doc: ExposureDocument, pixels: &[i32]) -> CandidateReading {
    CandidateReading {
        fits_path: path.to_string(),
        doc_id: header,
        sidecar: Some(doc),
        json_nbytes: Some(300),
        pixels: Some((pixels.to_vec(), 2, 2)),
    }
}

fn disk_document(id: &str, path: &str) -> ExposureDocument {
    let mut doc = dummy_document(id);
    doc.file_path = path.to_string();
    doc.width = 2;
    doc.height = 2;
    doc.max_adu = Some(65535);
    doc
}

#[test]
fn resolve_hits_disk_after_eviction() {
    let doc_uuid = "11111111-1111-1111-1111-111111111111";
    let mut cache = cache(64, 4);
    let candidates = vec![on_disk(
        "/data/11111111.fits",
        DocIdReading::Present(doc_uuid.to_string()),
        disk_document(doc_uuid, "/data/11111111.fits"),
        &[1, 2, 3, 4],
    )];
    let image = disk_resolve_to_cached_image(candidates, doc_uuid);
    let image = cache.resolve(doc_uuid, image).expect("disk resolve");
    assert_eq!(image.width, 2);
    assert_eq!(image.height, 2);
    assert_eq!(image.max_adu, 65535);
    assert_eq!(image.json_nbytes, 300);

    // The entry is in memory now; nothing more needs to be read.
    let again = cache.get(doc_uuid).expect("in-memory hit after rehydrate");
    assert_eq!(again.pixels.samples(), vec![1, 2, 3, 4]);
    assert_eq!(cache.len(), 1);
}

#[test]
fn resolve_returns_none_when_unknown() {
    let mut cache = cache(64, 4);
    let id = "00000000-0000-0000-0000-000000000000";
    let image = disk_resolve_to_cached_image(vec![], id);
    assert!(cache.resolve(id, image).is_none());
}

#[test]
fn resolve_handles_ghost_match() {
    let target_uuid = "deadbeef-1111-1111-1111-111111111111";
    let ghost_uuid = "deadbeef-2222-2222-2222-222222222222";
    let names: Vec<String> = ["legacy_deadbeef.fits", "deadbeef.fits"]
        .iter()
        .map(|s| s.to_string())
        .collect();
    let found = find_candidates_by_suffix(&names, target_uuid);
    assert_eq!(found, vec!["deadbeef.fits", "legacy_deadbeef.fits"]);

    let ghost = || {
        on_disk(
            "/data/legacy_deadbeef.fits",
            DocIdReading::Present(ghost_uuid.to_string()),
            // The sidecar lies; the header decides.
            disk_document(target_uuid, "/data/legacy_deadbeef.fits"),
            &[99, 99, 99, 99],
        )
    };
    let wanted = || {
        on_disk(
            "/data/deadbeef.fits",
            DocIdReading::Present(target_uuid.to_string()),
            disk_document(target_uuid, "/data/deadbeef.fits"),
            &[10, 20, 30, 40],
        )
    };
    let image = disk_resolve_to_cached_image(vec![ghost(), wanted()], target_uuid).unwrap();
    match &image.pixels {
        CachedPixels::U16(_) => assert_eq!(
            image.pixels.samples(),
            vec![10, 20, 30, 40],
            "resolved to ghost instead of target"
        ),
        CachedPixels::I32(_) => panic!("expected U16 variant"),
    }
    let doc = disk_resolve_document(vec![ghost(), wanted()], target_uuid).unwrap();
    assert_eq!(doc.file_path, "/data/deadbeef.fits");
    assert!(disk_resolve_document(vec![ghost()], target_uuid).is_none());
}

#[test]
fn resolve_skips_when_max_adu_unknown() {
    let doc_uuid = "22222222-2222-2222-2222-222222222222";
    let reading = || {
        let mut doc = disk_document(doc_uuid, "/data/22222222.fits");
        doc.max_adu = None;
        on_disk(
            "/data/22222222.fits",
            DocIdReading::Present(doc_uuid.to_string()),
            doc,
            &[0, 0, 0, 0],
        )
    };
    assert!(!wants_pixels(&reading(), doc_uuid));
    assert!(disk_resolve_to_cached_image(vec![reading()], doc_uuid).is_none());
    let mut cache = cache(64, 4);
    let doc = disk_resolve_document(vec![reading()], doc_uuid);
    match cache.resolve_document(doc_uuid, doc) {
        Some(FoundDocument::OnDisk(resolved)) => {
            assert_eq!(resolved.id, doc_uuid);
            assert!(resolved.max_adu.is_none());
        }
        _ => panic!("resolve_document despite max_adu=null"),
    }
    assert!(cache.is_empty());
}

#[test]
fn resolve_falls_back_to_sidecar_id_when_fits_corrupt() {
    let doc_uuid = "33333333-3333-3333-3333-333333333333";
    for header in [DocIdReading::Absent, DocIdReading::Unreadable] {
        let reading = on_disk(
            "/data/33333333.fits",
            header,
            disk_document(doc_uuid, "/data/33333333.fits"),
            &[1, 2, 3, 4],
        );
        assert!(wants_pixels(&reading, doc_uuid));
        let image = disk_resolve_to_cached_image(vec![reading], doc_uuid)
            .expect("resolve via sidecar id fallback");
        assert_eq!(image.width, 2);
    }
    let other = on_disk(
        "/data/33333333.fits",
        DocIdReading::Absent,
        disk_document("33333333-0000-0000-0000-000000000000", "/data/33333333.fits"),
        &[1, 2, 3, 4],
    );
    assert!(disk_resolve_to_cached_image(vec![other], doc_uuid).is_none());
}

#[test]
fn unreadable_frames_are_passed_over() {
    let id = "44444444-4444-4444-4444-444444444444";
    let broken = || CandidateReading {
        pixels: None,
        ..on_disk(
            "/data/a_44444444.fits",
            DocIdReading::Present(id.to_string()),
            disk_document(id, "/data/a_44444444.fits"),
            &[],
        )
    };
    let no_sidecar = || CandidateReading {
        sidecar: None,
        ..broken()
    };
    let whole = || {
        on_disk(
            "/data/b_44444444.fits",
            DocIdReading::Present(id.to_string()),
            disk_document(id, "/data/b_44444444.fits"),
            &[5, 6, 7, 8],
        )
    };
    let image = disk_resolve_to_cached_image(vec![no_sidecar(), broken(), whole()], id).unwrap();
    assert_eq!(image.fits_path, "/data/b_44444444.fits");
    // The document needs no frame.
    let doc = disk_resolve_document(vec![no_sidecar(), broken(), whole()], id).unwrap();
    assert_eq!(doc.file_path, "/data/a_44444444.fits");
    // Pixels that do not fill the frame end the search.
    let short = CandidateReading {
        pixels: Some((vec![1, 2, 3], 2, 2)),
        ..broken()
    };
    assert!(disk_resolve_to_cached_image(vec![short, whole()], id).is_none());
    let huge = CandidateReading {
        pixels: Some((vec![], 0, u32::MAX as usize + 1)),
        ..broken()
    };
    assert!(disk_resolve_to_cached_image(vec![huge, whole()], id).is_some());
    let misnamed = CandidateReading {
        fits_path: "/data/44444444.txt".to_string(),
        ..whole()
    };
    assert!(disk_resolve_to_cached_image(vec![misnamed], id).is_none());
}

fn number(v: u32) -> Value {
    Value::Number(Number::from(v))
}

fn cache_with(doc: ExposureDocument) -> ImageCache {
    let mut cache = cache(64, 4);
    let image = CachedImage::new(
        u16_pixels(2, 0),
        2,
        2,
        "/tmp/x.fits".to_string(),
        65535,
        doc,
        Some(100),
    );
    cache.insert("doc-1", image);
    cache
}

#[test]
fn put_section_rolls_back_new_section_on_sidecar_write_failure() {
    let mut cache = cache_with(dummy_document("doc-1"));
    let staged = match cache.begin_put_section("doc-1", "image_analysis", number(15)) {
        Ok(staged) => staged,
        Err(_) => panic!("the document is cached"),
    };
    assert!(staged.prior.is_none());
    assert!(cache
        .get("doc-1")
        .unwrap()
        .document
        .sections
        .contains_key("image_analysis"));
    let err = cache
        .finish_put_section(staged, Err(RpError::Io("disk full".to_string())))
        .expect_err("the write failed");
    assert_eq!(err.text(), "disk full");
    let entry = cache.get("doc-1").unwrap();
    assert!(
        !entry.document.sections.contains_key("image_analysis"),
        "new section must be rolled back when sidecar write fails"
    );
    assert_eq!(entry.json_nbytes, 100);
    assert_eq!(cache.bytes(), 108);
}

#[test]
fn put_section_restores_prior_value_on_sidecar_write_failure() {
    let mut doc = dummy_document("doc-1");
    let prior = Value::String("prior".to_string());
    doc.sections.insert("image_analysis".to_string(), prior.clone());
    let mut cache = cache_with(doc);
    let staged = match cache.begin_put_section("doc-1", "image_analysis", number(99)) {
        Ok(staged) => staged,
        Err(_) => panic!("the document is cached"),
    };
    assert_eq!(staged.prior, Some(prior.clone()));
    cache
        .finish_put_section(staged, Err(RpError::Io("disk full".to_string())))
        .expect_err("the write failed");
    let entry = cache.get("doc-1").unwrap();
    let stored = entry
        .document
        .sections
        .get("image_analysis")
        .expect("prior section must still be present");
    assert_eq!(stored, &prior, "prior section value must be restored");
}

#[test]
fn a_written_section_moves_the_budget_along() {
    let mut cache = cache_with(dummy_document("doc-1"));
    assert_eq!(cache.bytes(), 8 + 100);
    let staged = match cache.begin_put_section("doc-1", "wcs", number(1)) {
        Ok(staged) => staged,
        Err(_) => panic!("the document is cached"),
    };
    cache.finish_put_section(staged, Ok(Some(250))).unwrap();
    assert_eq!(cache.bytes(), 8 + 250);
    let staged = match cache.begin_put_section("doc-1", "wcs", number(2)) {
        Ok(staged) => staged,
        Err(_) => panic!("the document is cached"),
    };
    assert_eq!(staged.prior, Some(number(1)));
    cache.finish_put_section(staged, Ok(Some(90))).unwrap();
    assert_eq!(cache.bytes(), 8 + 90);
    let entry = cache.get("doc-1").unwrap();
    assert_eq!(entry.document.sections.get("wcs"), Some(&number(2)));
    assert_eq!(entry.json_nbytes, 90);
}

#[test]
fn a_document_that_outgrows_the_budget_leaves() {
    let mut cache = ImageCache::new(1, 10, "/data".to_string());
    assert_eq!(cache.data_directory(), "/data");
    cache.insert("doc-1", u16_image(512, 0));
    cache.insert("doc-2", u16_image(16, 0));
    let staged = match cache.begin_put_section("doc-2", "stars", number(1)) {
        Ok(staged) => staged,
        Err(_) => panic!("the document is cached"),
    };
    cache.finish_put_section(staged, Ok(Some(1_000_000))).unwrap();
    assert!(!cache.contains("doc-1"), "the least recently used leaves first");
    assert!(cache.contains("doc-2"));
    assert_eq!(cache.bytes(), 512 + 1_000_000);
}

#[test]
fn an_evicted_document_is_not_written_into() {
    let mut cache = cache_with(dummy_document("doc-1"));
    let staged = match cache.begin_put_section("doc-1", "wcs", number(1)) {
        Ok(staged) => staged,
        Err(_) => panic!("the document is cached"),
    };
    // Another image of the same document comes in while the write is on.
    let mut replacement = u16_image(2, 0);
    replacement.json_nbytes = 40;
    cache.insert("doc-1", replacement);
    assert_eq!(cache.bytes(), 48);
    cache
        .finish_put_section(staged, Err(RpError::Io("disk full".to_string())))
        .expect_err("the write failed");
    assert_eq!(cache.get("doc-1").unwrap().json_nbytes, 40);
    assert_eq!(cache.bytes(), 48);
}

#[test]
fn the_total_counts_only_what_is_held() {
    let mut cache = ImageCache::new(1, 1, "/data".to_string());
    let mut image = u16_image(2, 0);
    image.json_nbytes = 100;
    cache.insert("doc-1", image);
    let staged = match cache.begin_put_section("doc-1", "wcs", number(1)) {
        Ok(staged) => staged,
        Err(_) => panic!("the document is cached"),
    };
    cache.insert("doc-2", u16_image(2, 0));
    assert!(!cache.contains("doc-1"));
    assert_eq!(cache.bytes(), 8);
    cache.finish_put_section(staged, Ok(Some(130))).unwrap();
    assert_eq!(cache.bytes(), 8);
}

#[test]
fn a_section_of_an_unknown_document_comes_back() {
    let mut cache = cache(64, 4);
    match cache.begin_put_section("nope", "wcs", number(7)) {
        Err(value) => assert_eq!(value, number(7)),
        Ok(_) => panic!("the document is not cached"),
    }
    assert!(cache.is_empty());
}

#[test]
fn put_section_falls_back_to_disk_when_cache_misses() {
    let doc_uuid = "550e8400-e29b-41d4-a716-446655440000";
    let payload = Value::String("solved".to_string());
    let found = disk_resolve_document(
        vec![on_disk(
            "/data/550e8400.fits",
            DocIdReading::Present(doc_uuid.to_string()),
            disk_document(doc_uuid, "/data/550e8400.fits"),
            &[0, 0, 0, 0],
        )],
        doc_uuid,
    );
    let (doc, sidecar) =
        ImageCache::put_section_disk_fallback(doc_uuid, "wcs", payload.clone(), Ok(found))
            .expect("put_section disk-fallback should succeed");
    assert_eq!(sidecar, "/data/550e8400.json");
    assert_eq!(doc.id, doc_uuid);
    assert_eq!(doc.sections.get("wcs"), Some(&payload));
}

#[test]
fn put_section_disk_fallback_returns_not_found_for_unknown_id() {
    let id = "ffffffff-eeee-dddd-cccc-bbbbbbbbbbbb";
    let err = match ImageCache::put_section_disk_fallback(id, "wcs", Value::Null, Ok(None)) {
        Err(e) => e.text(),
        Ok(_) => panic!("unknown document id should error"),
    };
    assert!(err.contains("document not found"), "got: {err}");
    assert_eq!(err, format!("document not found: {id}"));
}

#[test]
fn put_section_disk_fallback_reports_a_lost_search() {
    let lost = Err("cancelled".to_string());
    let err = match ImageCache::put_section_disk_fallback("doc-1", "wcs", Value::Null, lost) {
        Err(e) => e.text(),
        Ok(_) => panic!("the search was lost"),
    };
    assert_eq!(err, "disk-fallback put_section: join error: cancelled");
}

#[test]
fn put_section_disk_fallback_declines_a_path_without_fits() {
    let mut doc = dummy_document("doc-1");
    doc.file_path = "/data/x.txt".to_string();
    let err = match ImageCache::put_section_disk_fallback("doc-1", "wcs", Value::Null, Ok(Some(doc))) {
        Err(e) => e.text(),
        Ok(_) => panic!("a path without .fits has no sidecar"),
    };
    assert_eq!(
        err,
        "disk-fallback put_section: file_path is not a .fits path: /data/x.txt"
    );
}

#[test]
fn resolve_document_by_path_returns_doc_for_known_sidecar() {
    let doc_uuid = "550e8400-e29b-41d4-a716-446655440000";
    let doc = disk_document(doc_uuid, "/data/550e8400.fits");
    let resolved = ImageCache::resolve_document_by_path("/data/550e8400.fits", Some(doc)).unwrap();
    assert_eq!(resolved.id, doc_uuid);
}

#[test]
fn resolve_document_by_path_returns_none_for_external_fits() {
    let result = ImageCache::resolve_document_by_path("/tmp/external-no-sidecar.fits", None);
    assert!(result.is_none());
}

#[test]
fn resolve_document_by_path_returns_none_for_non_fits_path() {
    let doc = disk_document("doc", "/tmp/no-extension");
    let result = ImageCache::resolve_document_by_path("/tmp/no-extension", Some(doc));
    assert!(result.is_none());
}

#[test]
fn resolve_document_by_path_rejects_sidecar_with_mismatched_basename() {
    let foreign_doc = disk_document(
        "ffffffff-eeee-dddd-cccc-bbbbbbbbbbbb",
        "/data/other-rig/foreign.fits",
    );
    let result = ImageCache::resolve_document_by_path("/data/local.fits", Some(foreign_doc));
    assert!(
        result.is_none(),
        "sidecar with mismatched basename must be declined"
    );
}

#[test]
fn resolve_document_by_path_accepts_archived_session_directory() {
    let doc = disk_document(
        "550e8400-e29b-41d4-a716-446655440000",
        "/old/location/abcd1234.fits",
    );
    let resolved = ImageCache::resolve_document_by_path("/archive/abcd1234.fits", Some(doc))
        .expect("archive workflow must resolve despite path divergence");
    assert_eq!(resolved.id, "550e8400-e29b-41d4-a716-446655440000");
}

#[test]
fn a_sidecar_may_name_its_file_in_another_way() {
    for file_path in ["/old/abcd1234.fits/", "/old//abcd1234.fits/.", "./abcd1234.fits", "abcd1234.fits"] {
        let doc = disk_document("doc", file_path);
        assert!(
            ImageCache::resolve_document_by_path("/new/abcd1234.fits", Some(doc)).is_some(),
            "{file_path}"
        );
    }
    for file_path in ["", "/", ".", "..", "/old/abcd1234.fits/..", "/abcd1234.fits/x"] {
        let doc = disk_document("doc", file_path);
        assert!(
            ImageCache::resolve_document_by_path("/new/abcd1234.fits", Some(doc)).is_none(),
            "{file_path}"
        );
    }
}

#[test]
fn a_document_written_back_is_found_again() {
    let id = "550e8400-e29b-41d4-a716-446655440000";
    let reading = |doc: ExposureDocument| {
        on_disk(
            "/data/550e8400.fits",
            DocIdReading::Present(id.to_string()),
            doc,
            &[0, 0, 0, 0],
        )
    };
    let ghost = || {
        on_disk(
            "/data/a_550e8400.fits",
            DocIdReading::Present("550e8400-0000-0000-0000-000000000000".to_string()),
            disk_document(id, "/data/a_550e8400.fits"),
            &[0, 0, 0, 0],
        )
    };
    let found = disk_resolve_document(
        vec![ghost(), reading(disk_document(id, "/data/550e8400.fits"))],
        id,
    );
    let (doc, path) =
        match ImageCache::put_section_disk_fallback(id, "wcs", number(7), Ok(found)) {
            Ok(written) => written,
            Err(e) => panic!("{}", e.text()),
        };
    assert_eq!(path, "/data/550e8400.json");
    let again = disk_resolve_document(vec![ghost(), reading(doc)], id).unwrap();
    assert_eq!(again.sections.get("wcs"), Some(&number(7)));
    assert_eq!(again.file_path, "/data/550e8400.fits");
}

#[test]
fn every_operation_keeps_the_account() {
    let mut cache = ImageCache::new(1, 3, "/data".to_string());
    let ids = ["a", "b", "c", "d", "e"];
    let held = |cache: &mut ImageCache| {
        let mut sum = 0;
        for id in ids {
            if let Some(image) = cache.get(id) {
                sum += image.nbytes();
            }
        }
        sum
    };
    for (n, id) in ids.iter().cycle().take(40).enumerate() {
        match n % 3 {
            0 => cache.insert(id, u16_image(100 + 10 * n, 0)),
            1 => {
                let _ = cache.resolve(id, Some(u16_image(50 + n, 0)));
            }
            _ => {
                if let Ok(staged) = cache.begin_put_section(id, "stars", number(1)) {
                    let written = if n % 2 == 0 {
                        Ok(Some(1000 * n))
                    } else {
                        Err(RpError::Io("disk full".to_string()))
                    };
                    let _ = cache.finish_put_section(staged, written);
                }
            }
        }
        let _ = cache.resolve_document(id, None);
        assert!(cache.len() <= 3);
        assert!(cache.bytes() <= 1024 * 1024);
        assert_eq!(held(&mut cache), cache.bytes());
    }
}

#[test]
fn a_cached_document_is_found_before_one_on_disk() {
    let mut cache = cache_with(dummy_document("doc-1"));
    match cache.resolve_document("doc-1", Some(dummy_document("stale"))) {
        Some(FoundDocument::Cached(doc)) => assert_eq!(doc.id, "doc-1"),
        _ => panic!("the document is cached"),
    }
    assert!(cache.resolve_document("doc-2", None).is_none());
}
