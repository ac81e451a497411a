use mdvault::error::AppError;
use mdvault::images::{
    classify, data_uri, get_image_base64, has_image_extension, lower_extension, mime_type,
    scan_images, FileClass, ImageFile, ImageInfo,
};
use mdvault::utils::MarkdownFile;

#[test]
fn lowercase_extensions() {
    assert_eq!(lower_extension("P.PnG"), "png");
    assert_eq!(lower_extension("/v/a.b/c.JPEG"), "jpeg");
    assert_eq!(lower_extension("none"), "");
    assert_eq!(lower_extension(".hidden"), "");
}

#[test]
fn classes() {
    for path in ["a.png", "a.JPG", "a.jpeg", "a.gif", "a.Svg", "a.webp", "d/e.f/g.WEBP"] {
        assert_eq!(classify(path), FileClass::Image);
    }
    assert_eq!(classify("n.md"), FileClass::Markdown);
    assert_eq!(classify("n.MD"), FileClass::Markdown);
    for path in ["a.bmp", "png", ".png", "a.png.txt", "", "a.pngx", ".md"] {
        assert_eq!(classify(path), FileClass::Other);
    }
    assert!(has_image_extension("svg"));
    assert!(!has_image_extension("SVG"));
}

#[test]
fn mime_types() {
    assert_eq!(mime_type("png"), Some("image/png".to_string()));
    assert_eq!(mime_type("jpg"), Some("image/jpeg".to_string()));
    assert_eq!(mime_type("jpeg"), Some("image/jpeg".to_string()));
    assert_eq!(mime_type("gif"), Some("image/gif".to_string()));
    assert_eq!(mime_type("svg"), Some("image/svg+xml".to_string()));
    assert_eq!(mime_type("webp"), Some("image/webp".to_string()));
    assert_eq!(mime_type("bmp"), None);
    assert_eq!(mime_type(""), None);
}

#[test]
fn data_uris() {
    assert_eq!(
        get_image_base64("/v/a.PNG", b"hello world~"),
        Ok("data:image/png;base64,aGVsbG8gd29ybGR+".to_string())
    );
    assert_eq!(get_image_base64("a.gif", b"M"), Ok("data:image/gif;base64,TQ==".to_string()));
    assert_eq!(get_image_base64("a.svg", b""), Ok("data:image/svg+xml;base64,".to_string()));
    assert_eq!(
        get_image_base64("a.jpeg", &[0xff, 0xd8, 0xff]),
        Ok("data:image/jpeg;base64,/9j/".to_string())
    );
    assert_eq!(
        get_image_base64("a.BMP", b"x"),
        Err(AppError::Unsupported("Unsupported image extension: bmp".to_string()))
    );
    assert_eq!(
        get_image_base64("noext", b"x"),
        Err(AppError::Unsupported("Unsupported image extension: ".to_string()))
    );
    assert_eq!(data_uri("image/png", "QUJD"), "data:image/png;base64,QUJD");
}

#[test]
fn images_are_described_and_ordered_by_name() {
    let images = vec![
        ImageFile { path: "/v/assets/zebra.PNG".to_string(), size: Some(30) },
        ImageFile { path: "/v/Apple.jpg".to_string(), size: None },
        ImageFile { path: "/v/assets/mango.webp".to_string(), size: Some(7) },
        ImageFile { path: "/v/other/apple.jpg".to_string(), size: Some(1) },
    ];
    let notes = vec![
        MarkdownFile { path: "/v/b.md".to_string(), content: Some("![](assets/zebra.PNG) and Apple.jpg".to_string()) },
        MarkdownFile { path: "/v/unreadable.md".to_string(), content: None },
        MarkdownFile { path: "/v/a.md".to_string(), content: Some("zebra.PNG again, apple.jpg".to_string()) },
    ];
    let infos = scan_images(&images, &notes);
    assert_eq!(
        infos,
        vec![
            ImageInfo {
                path: "/v/Apple.jpg".to_string(),
                name: "Apple.jpg".to_string(),
                size: 0,
                extension: "jpg".to_string(),
                used_in: vec!["/v/b.md".to_string()],
            },
            ImageInfo {
                path: "/v/other/apple.jpg".to_string(),
                name: "apple.jpg".to_string(),
                size: 1,
                extension: "jpg".to_string(),
                used_in: vec!["/v/a.md".to_string()],
            },
            ImageInfo {
                path: "/v/assets/mango.webp".to_string(),
                name: "mango.webp".to_string(),
                size: 7,
                extension: "webp".to_string(),
                used_in: vec![],
            },
            ImageInfo {
                path: "/v/assets/zebra.PNG".to_string(),
                name: "zebra.PNG".to_string(),
                size: 30,
                extension: "png".to_string(),
                used_in: vec!["/v/b.md".to_string(), "/v/a.md".to_string()],
            },
        ]
    );
    assert!(scan_images(&Vec::new(), &notes).is_empty());
}
