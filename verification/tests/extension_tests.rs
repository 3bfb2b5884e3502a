use my_dropbox_controller::extension::{file_name_of, Extension, ExtensionError};

#[test]
fn from_str_knows_the_picture_extensions() {
    for ext in ["jpeg", "JPEG", "jpg", "JPG"] {
        assert_eq!(Extension::from_str(ext).unwrap(), Extension::Jpeg);
    }
}

#[test]
fn from_str_knows_the_movie_extensions() {
    assert_eq!(Extension::from_str("mp4").unwrap(), Extension::Mp4);
    assert_eq!(Extension::from_str("MP4").unwrap(), Extension::Mp4);
}

#[test]
fn from_str_takes_everything_else_as_other() {
    for ext in ["", "png", "Jpg", "jpegs", "mp", "mp44", "mP4", "txt"] {
        assert_eq!(Extension::from_str(ext).unwrap(), Extension::Other);
    }
}

#[test]
fn from_path_reads_the_last_extension_of_the_file_name() {
    assert_eq!(Extension::from_path("a/b/c.jpg").unwrap(), Extension::Jpeg);
    assert_eq!(Extension::from_path("/photos/2020/IMG_0001.JPG").unwrap(), Extension::Jpeg);
    assert_eq!(Extension::from_path("clip.mp4").unwrap(), Extension::Mp4);
    assert_eq!(Extension::from_path("archive.tar.gz").unwrap(), Extension::Other);
    assert_eq!(Extension::from_path("movie.mp4.part").unwrap(), Extension::Other);
    assert_eq!(Extension::from_path("写真/夏.jpeg").unwrap(), Extension::Jpeg);
}

#[test]
fn from_path_takes_a_path_without_extension_as_other() {
    for path in ["/d/README", "README", "a.d/README", ".jpg", "dir/.mp4", "", "dir.jpg/", ".."] {
        assert_eq!(Extension::from_path(path).unwrap(), Extension::Other, "{:?}", path);
    }
}

#[test]
fn error_message_names_the_extension() {
    let err = ExtensionError::UnknownExtensionError("png".to_string());
    assert_eq!(err.message(), "UnknownExtensionError: png");
}

#[test]
fn of_path_ignores_what_has_no_extension() {
    assert_eq!(Extension::of_path("README"), Extension::Other);
    assert_eq!(Extension::of_path("x.JPEG"), Extension::Jpeg);
    assert_eq!(Extension::of_path("x.MP4"), Extension::Mp4);
    assert_eq!(Extension::of_path("a.jpg/b"), Extension::Other);
}

#[test]
fn file_name_is_the_last_component() {
    assert_eq!(file_name_of("a/b/c.jpg"), "c.jpg");
    assert_eq!(file_name_of("c.jpg"), "c.jpg");
    assert_eq!(file_name_of("/c.jpg"), "c.jpg");
    assert_eq!(file_name_of("a/b/"), "");
    assert_eq!(file_name_of("写真/夏.jpeg"), "夏.jpeg");
}
