use roblox_luau_env::image::{
    ProjectImage, ProjectImageFile, decode_project_image, encode_project_image, frame_image,
    image_payload, project_image, unpack_plan,
};
use roblox_luau_env::project::{LoadedProject, ProjectFile};

fn file(path: &str, bytes: &[u8]) -> ProjectFile {
    ProjectFile { relative_path: path.to_string(), bytes: bytes.to_vec() }
}

#[test]
fn packed_projects_come_back() {
    let project = LoadedProject {
        files: vec![file("Workspace/a.luau", b"return 1"), file("ExternalData/x.bin", &[0, 255, 7])],
    };
    let image = project_image(&project);
    assert_eq!(image.format, "RobloxLuaEnvironment");
    assert_eq!(image.version, 2);
    assert_eq!(image.files[0].path, "Workspace/a.luau");
    assert_eq!(image.files[0].content_base64, "cmV0dXJuIDE=");
    assert_eq!(image.files[1].content_base64, "AP8H");
    let back = decode_project_image(Ok(image)).expect("project");
    assert_eq!(back.files.len(), 2);
    for (left, right) in back.files.iter().zip(project.files.iter()) {
        assert_eq!(left.relative_path, right.relative_path);
        assert_eq!(left.bytes, right.bytes);
    }
}

#[test]
fn compressed_images_come_back() {
    let document = b"{\"format\":\"RobloxLuaEnvironment\"}".repeat(40);
    let bytes = encode_project_image(Ok(document.clone())).expect("image");
    assert_eq!(&bytes[..8], b"RLEIMG2\n");
    assert_eq!(&bytes[8..10], &[0x1f, 0x8b]);
    assert!(bytes.len() < document.len());
    assert_eq!(image_payload(&bytes).expect("document"), document);
    assert_eq!(encode_project_image(Ok(document)).expect("image"), bytes);
}

#[test]
fn images_without_compression_are_still_read() {
    let mut bytes = b"RLEIMG1\n".to_vec();
    bytes.extend_from_slice(b"{}");
    assert_eq!(image_payload(&bytes).expect("document"), b"{}".to_vec());
}

#[test]
fn broken_images_are_refused() {
    assert_eq!(image_payload(b"RLEIMG3\n{}").unwrap_err().message(), "Invalid .rleimg header");
    assert_eq!(image_payload(b"RLE").unwrap_err().message(), "Invalid .rleimg header");
    let error = image_payload(b"RLEIMG2\nnot gzip").unwrap_err().message();
    assert!(error.starts_with("Decompression error: "));
    assert_eq!(
        encode_project_image(Err("why".to_string())).unwrap_err().message(),
        "Could not encode image: why"
    );
    assert_eq!(
        frame_image(Err("a".to_string())).unwrap_err().message(),
        "Compression error: a"
    );
    assert_eq!(
        frame_image(Ok(Err("b".to_string()))).unwrap_err().message(),
        "Compression finish error: b"
    );
    assert_eq!(
        decode_project_image(Err("c".to_string())).unwrap_err().message(),
        "Could not decode image: c"
    );
    let other = ProjectImage { format: "Other".to_string(), version: 2, files: Vec::new() };
    assert_eq!(
        decode_project_image(Ok(other)).unwrap_err().message(),
        "Unsupported image format 'Other'"
    );
    let bad = ProjectImage {
        format: "RobloxLuaEnvironment".to_string(),
        version: 2,
        files: vec![ProjectImageFile {
            path: "a".to_string(),
            content_base64: "****".to_string(),
        }],
    };
    let error = decode_project_image(Ok(bad)).unwrap_err().message();
    assert!(error.starts_with("Could not decode image entry 'a': "));
    assert!(error.contains("42"));
}

#[test]
fn unpacked_files_go_below_the_directory() {
    let project = LoadedProject { files: vec![file("a/b.luau", b"x")] };
    let plan = unpack_plan(&project, "out", false, false).expect("plan");
    assert_eq!(plan.files[0].relative_path, "out/a/b.luau");
    assert_eq!(plan.files[0].bytes, b"x".to_vec());
    assert!(unpack_plan(&project, "out", true, true).is_ok());
    assert_eq!(
        unpack_plan(&project, "out", true, false).unwrap_err().message(),
        "out exists and is not a directory"
    );
}
