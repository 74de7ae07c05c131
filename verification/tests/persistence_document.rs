use rp::binary64::Binary64;
use rp::error::RpError;
use rp::persistence::document::{
    sidecar_directory, sidecar_path, sidecar_written, CameraGeometry, DerivedGeometry, ExposureDocument,
    ExposureTarget, Optics, SidecarWrite,
};
use rp::persistence::fits::{
    doc_id_reading, fits_written, read_fits_doc_id, read_fits_pixels, translate_write_err, FitsWrite,
    KeywordValue,
};
use rp::persistence::disk::DocIdReading;
use rp::planner::targets::{IcrsCoord, Target};

fn b(v: f64) -> Binary64 {
    Binary64 { bits: v.to_bits() }
}

fn f(v: Binary64) -> f64 {
    f64::from_bits(v.bits)
}

#[test]
fn sidecar_path_swaps_extension() {
    assert_eq!(
        sidecar_path("/data/lights/550e8400.fits"),
        "/data/lights/550e8400.json"
    );
}

#[test]
fn sidecar_path_adds_a_missing_extension() {
    assert_eq!(sidecar_path("/data/img"), "/data/img.json");
    assert_eq!(sidecar_path("/data.d/img"), "/data.d/img.json");
    assert_eq!(sidecar_path("/data/.hidden"), "/data/.hidden.json");
    assert_eq!(sidecar_path("a.b.fits"), "a.b.json");
}

#[test]
fn sidecar_path_swaps_the_extension_of_the_last_name() {
    swaps_to("/data/x.fits/", "/data/x.json");
    swaps_to("/data//x.fits/.", "/data/x.json");
    swaps_to("./x.fits", "./x.json");
    swaps_to("/data/./x", "/data/x.json");
    swaps_to("x.", "x.json");
    swaps_to("a/..", "a/..");
    swaps_to("/", "/");
    swaps_to("", "");
    swaps_to(".", ".");
}

/// The sidecar path has the components of the expected one.
fn swaps_to(path: &str, expected: &str) {
    let found = sidecar_path(path);
    assert_eq!(
        std::path::Path::new(&found),
        std::path::Path::new(expected),
        "{path}"
    );
}

#[test]
fn only_fits_paths_have_a_sidecar() {
    assert_eq!(
        ExposureDocument::sidecar_path_for("/data/x.fits"),
        Some("/data/x.json".to_string())
    );
    assert_eq!(ExposureDocument::sidecar_path_for("/data/x.fit"), None);
    assert_eq!(ExposureDocument::sidecar_path_for("/data/.fits"), None);
    assert_eq!(ExposureDocument::sidecar_path_for(".fits"), None);
    assert_eq!(ExposureDocument::sidecar_path_for("/tmp/no-extension"), None);
}

#[test]
fn read_sidecar_sync_errors_when_file_missing() {
    let missing = "/data/does_not_exist.json";
    let msg = match ExposureDocument::read_sidecar_sync(missing, Err("No such file".to_string())) {
        Err(e) => e.text(),
        Ok(_) => panic!("there is no file"),
    };
    assert!(
        msg.contains("failed to read sidecar"),
        "expected read-failure prefix, got: {msg}"
    );
    assert!(
        msg.contains(missing),
        "expected error to include the offending path, got: {msg}"
    );
    assert_eq!(
        msg,
        "failed to read sidecar '/data/does_not_exist.json': No such file"
    );
}

#[test]
fn read_sidecar_sync_errors_on_invalid_json() {
    let bad = "/data/garbage.json";
    let parsed = Ok(Err("key must be a string".to_string()));
    let msg = match ExposureDocument::read_sidecar_sync(bad, parsed) {
        Err(e) => e.text(),
        Ok(_) => panic!("the file holds no document"),
    };
    assert!(
        msg.contains("failed to parse sidecar"),
        "expected parse-failure prefix, got: {msg}"
    );
    assert!(
        msg.contains(bad),
        "expected error to include the offending path, got: {msg}"
    );
}

#[test]
fn exposure_target_from_store_target_denormalizes_every_field() {
    let target = Target {
        slug: "m33".to_string(),
        display_name: "M33".to_string(),
        coord: IcrsCoord::try_new(b(1.4642), b(30.6602)).unwrap(),
        position_angle_degrees: None,
        goals: Vec::new(),
        scheduling: None,
        grading: None,
    };
    let exposure_target = ExposureTarget::from(&target);
    assert_eq!(exposure_target.slug, "m33");
    assert_eq!(exposure_target.display_name.as_deref(), Some("M33"));
    assert_eq!(exposure_target.ra_hours, Some(b(1.4642)));
    assert_eq!(exposure_target.dec_degrees, Some(b(30.6602)));
}

fn geometry(
    focal_length_mm: f64,
    pixel_um_x: f64,
    pixel_um_y: f64,
    width_px: u32,
    height_px: u32,
) -> CameraGeometry {
    CameraGeometry {
        focal_length_mm: b(focal_length_mm),
        pixel_size_x_um: b(pixel_um_x),
        pixel_size_y_um: b(pixel_um_y),
        sensor_width_px: width_px,
        sensor_height_px: height_px,
    }
}

/// The scales and the field of view of a geometry.
fn optics(geometry: CameraGeometry) -> Option<Optics> {
    let scale_x = 206.265 * f(geometry.pixel_size_x_um) / f(geometry.focal_length_mm);
    let scale_y = 206.265 * f(geometry.pixel_size_y_um) / f(geometry.focal_length_mm);
    let derived = DerivedGeometry {
        pixel_scale_x_arcsec_per_pixel: b(scale_x),
        pixel_scale_y_arcsec_per_pixel: b(scale_y),
        fov_width_deg: b(scale_x * f64::from(geometry.sensor_width_px) / 3600.0),
        fov_height_deg: b(scale_y * f64::from(geometry.sensor_height_px) / 3600.0),
    };
    Optics::from_camera_geometry(geometry, derived)
}

#[test]
fn optics_derives_pixel_scale_and_fov() {
    let optics = optics(geometry(1000.0, 3.76, 3.76, 9576, 6388)).unwrap();
    assert!((f(optics.pixel_scale_x_arcsec_per_pixel) - 0.775_556_4).abs() < 1e-6);
    assert!((f(optics.fov_width_deg) - 2.062_980).abs() < 1e-5);
    assert!((f(optics.fov_height_deg) - 1.376_181).abs() < 1e-5);
    assert_eq!(optics.focal_length_mm, b(1000.0));
    assert_eq!(optics.sensor_width_px, 9576);
}

#[test]
fn optics_supports_anisotropic_pixels() {
    let optics = optics(geometry(1000.0, 4.0, 5.0, 100, 100)).unwrap();
    assert!(
        f(optics.pixel_scale_x_arcsec_per_pixel) < f(optics.pixel_scale_y_arcsec_per_pixel),
        "wider pixels in y must produce a larger y pixel scale"
    );
    assert!(f(optics.fov_width_deg) < f(optics.fov_height_deg));
}

#[test]
fn optics_rejects_non_positive_inputs() {
    assert!(optics(geometry(0.0, 3.76, 3.76, 1024, 1024)).is_none());
    assert!(optics(geometry(-1.0, 3.76, 3.76, 1024, 1024)).is_none());
    assert!(optics(geometry(1000.0, 0.0, 3.76, 1024, 1024)).is_none());
    assert!(optics(geometry(1000.0, 3.76, -3.76, 1024, 1024)).is_none());
    assert!(optics(geometry(1000.0, 3.76, 3.76, 0, 1024)).is_none());
    assert!(optics(geometry(1000.0, 3.76, 3.76, 1024, 0)).is_none());
    assert!(optics(geometry(f64::NAN, 3.76, 3.76, 1024, 1024)).is_none());
    assert!(optics(geometry(f64::INFINITY, 3.76, 3.76, 1024, 1024)).is_none());
}

#[test]
fn optics_rejects_when_derived_overflows_to_infinity() {
    let optics = optics(geometry(f64::MIN_POSITIVE, 3.76, 3.76, 1024, 1024));
    assert!(
        optics.is_none(),
        "derivation must reject inputs that overflow to infinity, got: {optics:?}"
    );
}

#[test]
fn read_fits_nonexistent() {
    let opened = Err("No such file or directory (os error 2)".to_string());
    let err = match read_fits_pixels("/nonexistent/path.fits", opened) {
        Err(e) => e.text(),
        Ok(_) => panic!("there is no file"),
    };
    assert!(err.contains("failed to open FITS"), "unexpected error: {err}");
    assert_eq!(
        err,
        "failed to open FITS file '/nonexistent/path.fits': No such file or directory (os error 2)"
    );
}

#[test]
fn read_fits_pixels_hands_the_frame_on() {
    let frame = read_fits_pixels("/data/x.fits", Ok(Ok((vec![1, 2, 3, 4], 2, 2)))).unwrap();
    assert_eq!(frame, (vec![1, 2, 3, 4], 2, 2));
    let err = match read_fits_pixels("/data/x.fits", Ok(Err("truncated".to_string()))) {
        Err(e) => e.text(),
        Ok(_) => panic!("the file does not parse"),
    };
    assert_eq!(err, "failed to parse FITS file '/data/x.fits': truncated");
}

#[test]
fn read_fits_doc_id_nonexistent() {
    let err = match read_fits_doc_id("/nonexistent/path.fits", Err("No such file".to_string())) {
        Err(e) => e.text(),
        Ok(_) => panic!("there is no file"),
    };
    assert!(err.contains("failed to open FITS"), "unexpected error: {err}");
}

#[test]
fn read_fits_doc_id_returns_none_when_header_absent() {
    let read_back = read_fits_doc_id("/data/legacy.fits", Ok(Ok(None))).unwrap();
    assert!(
        read_back.is_none(),
        "expected None for FITS without DOC_ID, got {read_back:?}"
    );
}

#[test]
fn read_fits_doc_id_rejects_non_string_value() {
    let err = match read_fits_doc_id("/data/bad.fits", Ok(Ok(Some(KeywordValue::Other)))) {
        Err(e) => e.text(),
        Ok(_) => panic!("the header holds no text"),
    };
    assert!(err.contains("non-string value"), "unexpected error: {err}");
}

#[test]
fn read_fits_doc_id_propagates_parse_failure() {
    let opened = Ok(Err("not a FITS file".to_string()));
    let err = match read_fits_doc_id("/data/truncated.fits", opened) {
        Err(e) => e.text(),
        Ok(_) => panic!("the file does not parse"),
    };
    assert!(err.contains("failed to read DOC_ID"), "unexpected error: {err}");
}

#[test]
fn doc_id_round_trips_through_header() {
    let doc_id = "550e8400-e29b-41d4-a716-446655440000";
    let keyword = KeywordValue::Str(doc_id.to_string());
    let read_back = read_fits_doc_id("/data/img.fits", Ok(Ok(Some(keyword)))).unwrap();
    assert_eq!(read_back.as_deref(), Some(doc_id));
    match doc_id_reading(Ok(read_back)) {
        DocIdReading::Present(id) => assert_eq!(id, doc_id),
        _ => panic!("the header has an id"),
    }
    match doc_id_reading(Ok(None)) {
        DocIdReading::Absent => {}
        _ => panic!("the header has no id"),
    }
    match doc_id_reading(Err(translate_write_err("x"))) {
        DocIdReading::Unreadable => {}
        _ => panic!("the header could not be read"),
    }
}

#[test]
fn write_errors_carry_their_cause() {
    assert_eq!(
        translate_write_err("disk full").text(),
        "failed to write FITS file: disk full"
    );
}

#[test]
fn every_outcome_of_a_fits_write_is_told_apart() {
    assert!(fits_written(FitsWrite::Written).is_ok());
    let text = |write| fits_written(write).unwrap_err().text();
    assert_eq!(
        text(FitsWrite::BadKeyword("too long".to_string())),
        "invalid DOC_ID keyword: too long"
    );
    assert_eq!(
        text(FitsWrite::Refused("10 pixels for 4x4".to_string())),
        "failed to write FITS file: 10 pixels for 4x4"
    );
    assert_eq!(
        text(FitsWrite::Lost("cancelled".to_string())),
        "task join error: cancelled"
    );
}

#[test]
fn write_sidecar_at_errors_when_path_has_no_parent() {
    let msg = sidecar_directory("").unwrap_err().text();
    assert!(
        msg.contains("sidecar path has no parent"),
        "expected parent-missing message, got: {msg}"
    );
}

#[test]
fn a_sidecar_is_written_into_its_directory() {
    assert_eq!(sidecar_directory("/data/m33/x.json").unwrap(), "/data/m33");
    assert_eq!(sidecar_directory("/x.json").unwrap(), "/");
    assert_eq!(sidecar_directory("x.json").unwrap(), "");
    assert_eq!(sidecar_directory("a/../x.json").unwrap(), "a/..");
    assert_eq!(sidecar_directory("./x.json").unwrap(), ".");
    let same = |path: &str, expected: &str| {
        let found = sidecar_directory(path).unwrap();
        assert_eq!(
            std::path::Path::new(&found),
            std::path::Path::new(expected),
            "{path}"
        );
    };
    same("/data/m33/", "/data");
    same("/data//m33/.", "/data");
    same("a/./b", "a");
    same("..", "");
    same(".", "");
    same("/..", "/");
    assert!(sidecar_directory("/").is_err());
}

#[test]
fn every_outcome_of_a_sidecar_write_is_told_apart() {
    assert!(sidecar_written(SidecarWrite::Written).is_ok());
    match sidecar_written(SidecarWrite::Refused("disk full".to_string())) {
        Err(RpError::Io(e)) => assert_eq!(e, "disk full"),
        _ => panic!("the operating system refused"),
    }
    let lost = SidecarWrite::Lost("cancelled".to_string());
    assert_eq!(
        sidecar_written(lost).unwrap_err().text(),
        "sidecar write task join error: cancelled"
    );
}
