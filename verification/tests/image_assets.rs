use std::io::Cursor;

use rockdown::image_assets::{
    asset_stem, collision_step, encoded_path, escaped_alt, local_image_path, validate_assets_dir, validated_image,
    CollisionStep, CreateOutcome, ImportError,
};

fn png(value: u8) -> Vec<u8> {
    let mut bytes = Cursor::new(Vec::new());
    image::DynamicImage::ImageRgba8(image::RgbaImage::from_pixel(1, 1, image::Rgba([value, 0, 0, 255])))
        .write_to(&mut bytes, image::ImageFormat::Png)
        .unwrap();
    bytes.into_inner()
}

#[test]
fn damaged_pixels_with_valid_headers_roll_back_the_entire_import() {
    let mut damaged = png(7);
    let data = damaged.windows(4).position(|bytes| bytes == b"IDAT").unwrap() + 4;
    damaged[data] ^= 0xff;
    // A header-only validator would accept this image, but the pixel stream
    // cannot be decoded, so the import refuses it.
    assert_eq!(
        image::ImageReader::with_format(Cursor::new(&damaged), image::ImageFormat::Png)
            .into_dimensions()
            .unwrap(),
        (1, 1)
    );
    assert_eq!(validated_image(&png(1)), Ok("png".to_string()));
    assert_eq!(validated_image(&damaged), Err(ImportError::InvalidData));
}

#[test]
fn supported_formats_validate_under_their_own_extension() {
    for (format, extension) in [
        (image::ImageFormat::Png, "png"),
        (image::ImageFormat::Jpeg, "jpg"),
        (image::ImageFormat::Gif, "gif"),
        (image::ImageFormat::WebP, "webp"),
    ] {
        let mut bytes = Cursor::new(Vec::new());
        image::DynamicImage::ImageRgb8(image::RgbImage::from_pixel(1, 1, image::Rgb([1, 2, 3])))
            .write_to(&mut bytes, format)
            .unwrap();
        assert_eq!(validated_image(&bytes.into_inner()), Ok(extension.to_string()));
    }
}

#[test]
fn unsupported_and_truncated_images_are_refused() {
    assert_eq!(validated_image(b"not an image"), Err(ImportError::UnsupportedFormat));
    assert_eq!(validated_image(&[]), Err(ImportError::UnsupportedFormat));
    assert_eq!(validated_image(b"<svg xmlns=\"http://www.w3.org/2000/svg\"/>"), Err(ImportError::UnsupportedFormat));
    let header_only = png(3)[..8].to_vec();
    assert_eq!(validated_image(&header_only), Err(ImportError::InvalidData));
}

#[test]
fn collisions_take_the_next_index_or_reuse_identical_files() {
    assert_eq!(collision_step(0, CreateOutcome::Created), CollisionStep::WriteNew);
    assert_eq!(collision_step(4, CreateOutcome::Exists { same_regular_file: true }), CollisionStep::Reuse);
    assert_eq!(collision_step(0, CreateOutcome::Exists { same_regular_file: false }), CollisionStep::Try(1));
    assert_eq!(collision_step(41, CreateOutcome::Exists { same_regular_file: false }), CollisionStep::Try(42));
    assert_eq!(
        collision_step(u64::MAX, CreateOutcome::Exists { same_regular_file: false }),
        CollisionStep::TooManyCollisions
    );
    assert_eq!(collision_step(u64::MAX, CreateOutcome::Created), CollisionStep::WriteNew);
}


#[test]
fn traversal_and_network_urls_are_rejected() {
    for directory in [
        "",
        " ",
        ".",
        "../assets",
        "assets/../out",
        "/assets",
        "C:/assets",
        "assets\\out",
    ] {
        assert!(validate_assets_dir(directory).is_err(), "{directory}");
    }
    for url in [
        "https://host/image.png",
        "//host/image.png",
        "data:image/png,test",
        "file:///image.png",
        "%2F%2Fhost/image.png",
        "\\\\host\\image.png",
    ] {
        assert!(local_image_path(".", url).is_none(), "{url}");
    }
}

#[test]
fn nested_relative_asset_directories_are_accepted() {
    assert!(validate_assets_dir("assets").is_ok());
    assert!(validate_assets_dir("media/图片").is_ok());
}

#[test]
fn local_urls_decode_once_and_join_the_document_directory() {
    assert_eq!(
        local_image_path("/docs", "img/a%20b.png?x=1#frag"),
        Some("/docs/img/a b.png".to_string())
    );
    assert_eq!(
        local_image_path("/docs/", "a%2525.png"),
        Some("/docs/a%25.png".to_string())
    );
    assert_eq!(local_image_path("/docs", "a%ZZ.png"), None);
    assert_eq!(local_image_path("/docs", "a%00.png"), None);
}

#[test]
fn alt_text_escapes_markdown_punctuation() {
    assert_eq!(escaped_alt("a*b_[c]"), "a\\*b\\_\\[c\\]");
}

#[test]
fn asset_stems_replace_unsafe_characters_and_never_end_empty() {
    assert_eq!(asset_stem("my:photo"), "my_photo");
    assert_eq!(asset_stem(" .a b. "), "a b");
    assert_eq!(asset_stem("..."), "image");
}

#[test]
fn encoded_links_resolve_back_to_reserved_and_unicode_names() {
    for (dir, file) in [
        ("assets/图片", "中文 #50% (图)[1].png"),
        ("assets", "a?b#c.png"),
        ("media", "100%.gif"),
    ] {
        let url = encoded_path(dir, file);
        assert!(!url.contains('#') && !url.contains('?') && !url.contains(' '), "{url}");
        assert_eq!(local_image_path("/doc", &url), Some(format!("/doc/{dir}/{file}")));
    }
}
