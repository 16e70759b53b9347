use media_grid::media::{classify, contains_slice, get_media_files, get_supported_ext_for_file_type, File, FileType};

fn paths(list: &[&str]) -> Vec<String> {
    list.iter().map(|s| s.to_string()).collect()
}

#[test]
fn image_extensions_are_listed_in_order() {
    assert_eq!(get_supported_ext_for_file_type(&FileType::IMAGE), vec![".jpg", ".jpeg", ".png"]);
    assert_eq!(get_supported_ext_for_file_type(&FileType::VIDEO), vec![".mp4", ".mov"]);
}

#[test]
fn upper_case_suffix_is_not_matched() {
    assert!(classify(b"photo.JPG").is_empty());
    assert_eq!(get_media_files(&paths(&["dir/photo.JPG"])).len(), 0);
}

#[test]
fn lower_case_suffix_is_matched() {
    assert_eq!(classify(b"photo.jpg"), vec![FileType::IMAGE]);
    assert_eq!(classify(b"shot.png"), vec![FileType::IMAGE]);
    assert_eq!(classify(b"shot.jpeg"), vec![FileType::IMAGE]);
    assert_eq!(classify(b"movie.mov"), vec![FileType::VIDEO]);
}

#[test]
fn suffix_is_matched_anywhere_in_the_name() {
    assert_eq!(classify(b"backup.jpgold.txt"), vec![FileType::IMAGE]);
    assert!(classify(b"notes.txt").is_empty());
    assert!(classify(b"").is_empty());
}

#[test]
fn name_matching_both_kinds_is_registered_under_each() {
    assert_eq!(classify(b"a.mp4.png"), vec![FileType::IMAGE, FileType::VIDEO]);
    let cat = get_media_files(&paths(&["x/a.mp4.png"]));
    assert_eq!(cat.len(), 2);
    assert_eq!(cat[0].file_type, FileType::IMAGE);
    assert_eq!(cat[1].file_type, FileType::VIDEO);
    assert_eq!(cat[1].path, "x/a.mp4.png");
}

#[test]
fn video_is_cataloged_as_video() {
    let cat = get_media_files(&paths(&["root/clip.mp4"]));
    assert_eq!(cat.len(), 1);
    assert_eq!(cat[0].path, "root/clip.mp4");
    assert_eq!(cat[0].file_type, FileType::VIDEO);
}

#[test]
fn only_the_file_name_is_classified() {
    let cat = get_media_files(&paths(&["album.jpg/readme.txt", "a/b/c.png"]));
    assert_eq!(cat.len(), 1);
    assert_eq!(cat[0].path, "a/b/c.png");
}

#[test]
fn catalog_keeps_walk_order() {
    let cat = get_media_files(&paths(&["r/b.png", "r/a.mov", "r/skip.txt", "s/c.jpg"]));
    let got: Vec<(&str, FileType)> = cat.iter().map(|f| (f.path.as_str(), f.file_type)).collect();
    assert_eq!(got, vec![("r/b.png", FileType::IMAGE), ("r/a.mov", FileType::VIDEO), ("s/c.jpg", FileType::IMAGE)]);
}

#[test]
fn file_new_keeps_its_fields() {
    let f = File::new("p.png".to_string(), FileType::IMAGE);
    assert_eq!(f.path, "p.png");
    assert_eq!(f.file_type, FileType::IMAGE);
}

#[test]
fn substring_search() {
    assert!(contains_slice(b"abc", b""));
    assert!(contains_slice(b"abc", b"bc"));
    assert!(!contains_slice(b"abc", b"abcd"));
    assert!(!contains_slice(b"abc", b"ac"));
}
