use tuxedo_md::licenses::{
    license_file_name, license_payload, license_probes, load_license_file, LicenseContent,
    LicenseProbe, ProbeKind, LICENSE_FILE_COUNT,
};

fn object(text: &str) -> serde_json::Map<String, serde_json::Value> {
    serde_json::from_str(text).unwrap()
}

fn file(p: &str) -> LicenseProbe {
    LicenseProbe { kind: ProbeKind::File, location: p.to_string(), path: p.as_bytes().to_vec() }
}

#[test]
fn license_files_are_npm_then_cargo() {
    assert_eq!(LICENSE_FILE_COUNT, 2);
    assert_eq!(license_file_name(0), "licenses-npm.json");
    assert_eq!(license_file_name(1), "licenses-cargo.json");
}

#[test]
fn probes_look_in_assets_resources_then_working_directory() {
    let probes = license_probes("l.json", &Some(b"/res".to_vec()));
    assert_eq!(
        probes,
        vec![
            LicenseProbe {
                kind: ProbeKind::Asset,
                location: "l.json".to_string(),
                path: b"l.json".to_vec(),
            },
            file("/res/l.json"),
            file("/res/public/l.json"),
            file("/res/dist/l.json"),
            file("l.json"),
            file("public/l.json"),
            file("dist/l.json"),
        ]
    );
    assert_eq!(license_probes("l.json", &None).len(), 4);
    assert_eq!(probes[0].label(), "asset:l.json");
    assert_eq!(probes[2].label(), "/res/public/l.json");
}

#[test]
fn resource_paths_that_are_not_utf8_are_read_as_they_are_and_shown_lossily() {
    let probes = license_probes("l.json", &Some(b"/r\xffs".to_vec()));
    assert_eq!(probes[1].path, b"/r\xffs/l.json".to_vec());
    assert_eq!(probes[1].location, "/r\u{fffd}s/l.json");
    assert_eq!(probes[3].path, b"/r\xffs/dist/l.json".to_vec());
    assert_eq!(probes[3].label(), "/r\u{fffd}s/dist/l.json");
}

#[test]
fn a_found_object_is_loaded_and_places_are_recorded() {
    let probes = license_probes("l.json", &None);
    let mut attempted = vec!["earlier".to_string()];
    let res = load_license_file(
        "l.json",
        &probes,
        Some((2, LicenseContent::Text("{\"b\":1,\"a\":2}".to_string()))),
        &mut attempted,
    )
    .unwrap()
    .unwrap();
    assert_eq!(serde_json::Value::Object(res).to_string(), "{\"a\":2,\"b\":1}");
    assert_eq!(attempted, vec!["earlier", "asset:l.json", "l.json", "public/l.json"]);
}

#[test]
fn a_missing_file_records_every_place() {
    let probes = license_probes("l.json", &None);
    let mut attempted = Vec::new();
    assert_eq!(load_license_file("l.json", &probes, None, &mut attempted), Ok(None));
    assert_eq!(attempted.len(), 4);
}

#[test]
fn bad_license_files_are_reported_by_name_or_path() {
    let probes = license_probes("l.json", &None);
    let mut attempted = Vec::new();
    let err = load_license_file("l.json", &probes, Some((0, LicenseContent::Bytes(vec![0xff]))), &mut attempted)
        .unwrap_err();
    assert!(err.starts_with("Failed to decode bundled l.json: "));
    let err = load_license_file("l.json", &probes, Some((0, LicenseContent::Bytes(b"[1]".to_vec()))), &mut attempted)
        .unwrap_err();
    assert_eq!(err, "Bundled l.json must be a JSON object");
    let err = load_license_file("l.json", &probes, Some((0, LicenseContent::Bytes(b"{".to_vec()))), &mut attempted)
        .unwrap_err();
    assert!(err.starts_with("Failed to parse bundled l.json: "));
    let err = load_license_file("l.json", &probes, Some((3, LicenseContent::Text("3".to_string()))), &mut attempted)
        .unwrap_err();
    assert_eq!(err, "dist/l.json must be a JSON object");
    let err = load_license_file("l.json", &probes, Some((1, LicenseContent::Text("nope".to_string()))), &mut attempted)
        .unwrap_err();
    assert!(err.starts_with("Failed to parse l.json: "));
}

#[test]
fn later_license_files_override_earlier_entries() {
    let npm = object("{\"x\":1,\"y\":2}");
    let cargo = object("{\"y\":3}");
    let res = license_payload(vec![Some(npm), None, Some(cargo)], &vec![]).unwrap();
    assert_eq!(res, "{\"x\":1,\"y\":3}");
}

#[test]
fn no_license_file_reports_the_places_tried() {
    let attempted = vec!["asset:a".to_string(), "b".to_string()];
    let err = license_payload(vec![None, None], &attempted).unwrap_err();
    assert_eq!(
        err,
        "Failed to read licenses: no license files were found in bundled assets or known paths (tried: asset:a, b)"
    );
}

#[test]
fn the_first_place_with_content_is_used() {
    let probes = license_probes("l.json", &None);
    let found = tuxedo_md::licenses::first_found(&probes, |p: &LicenseProbe| {
        if p.location.starts_with("public/") || p.location.starts_with("dist/") {
            Some(LicenseContent::Text(p.location.clone()))
        } else {
            None
        }
    });
    match found {
        Some((2, LicenseContent::Text(t))) => assert_eq!(t, "public/l.json"),
        _ => panic!("expected the third place"),
    }
    assert!(tuxedo_md::licenses::first_found(&probes, |_: &LicenseProbe| None).is_none());
}

#[test]
fn loaded_files_merge_into_one_object() {
    let probes = license_probes("l.json", &None);
    let mut attempted = Vec::new();
    let npm = load_license_file(
        "l.json",
        &probes,
        Some((0, LicenseContent::Bytes(br#"{"pkg":{"license":"MIT","deps":[1,2]},"shared":"npm"}"#.to_vec()))),
        &mut attempted,
    )
    .unwrap();
    let cargo = load_license_file(
        "l.json",
        &probes,
        Some((1, LicenseContent::Text(r#"{"crate":"Apache-2.0","shared":"cargo"}"#.to_string()))),
        &mut attempted,
    )
    .unwrap();
    let res = license_payload(vec![npm, cargo], &attempted).unwrap();
    assert_eq!(
        res,
        r#"{"crate":"Apache-2.0","pkg":{"deps":[1,2],"license":"MIT"},"shared":"cargo"}"#
    );
}

#[test]
fn floats_are_written_back_exactly() {
    let npm = object("{\"v\":0.30000000000000004,\"w\":1e300}");
    let res = license_payload(vec![Some(npm.clone()), None], &vec![]).unwrap();
    assert_eq!(res, serde_json::to_string(&npm).unwrap());
}
