use file_url::file_url_to_pathbuf;
use file_url::FilePath;
use file_url::PathFileUrlExt;
use file_url::PathFromFileUrlExt;

#[test]
fn basic_pathbuf_to_url() {
    let p = FilePath::from_posix_str("/some/file.txt");
    let url = p.to_file_url();
    let s = url.as_str();
    assert_eq!(s, "file:///some/file.txt");
}

#[test]
fn oddball_pathbuf_to_url() {
    let p = FilePath::from_posix_str("/gi>/some & what.whtvr");
    let url = p.to_file_url();
    let s = url.as_str();
    assert_eq!(s, "file:///gi%3E/some%20%26%20what.whtvr");
}

#[test]
fn basic_pathbuf_from_url() {
    let one = FilePath::from_posix_str("/some/file.txt");
    let two = FilePath::from_file_url("file:///some/file.txt");
    assert_eq!(one, two);
}

#[test]
fn oddball_pathbuf_from_url() {
    let one = FilePath::from_file_url("file:///gi%3E/some%20%26%20what.whtvr");
    let two = FilePath::from_posix_str("/gi>/some & what.whtvr");
    assert_eq!(one, two);
}

#[test]
fn basic_path_to_url() {
    let one = FilePath::from_posix_str("/foo/bar.txt").to_file_url();
    let two = "file:///foo/bar.txt";
    assert_eq!(one, two);
}

#[test]
fn unicode_path_to_url() {
    let one = FilePath::from_posix_str("/tmp/😀/#{}^.txt").to_file_url();
    let two = "file:///tmp/%F0%9F%98%80/%23%7B%7D%5E.txt";
    assert_eq!(one, two);
}

#[test]
fn unicode_url_to_path() {
    let one = FilePath::from_file_url("file:///tmp/%F0%9F%98%80/%23%7B%7D%5E.txt");
    let two = FilePath::from_posix_str("/tmp/😀/#{}^.txt");
    assert_eq!(one, two);
}

#[test]
fn windows_pathbuf_to_url() {
    let p = FilePath::from_windows_str(r"c:\WINDOWS\clock.avi");
    let url = p.to_file_url();
    let s = url.as_str();
    assert_eq!(s, "file:///c:/WINDOWS/clock.avi");
}

#[test]
fn url_round_trip_reproduces_path() {
    let p = FilePath::from_posix_str("/a b/c#d/é");
    let q = FilePath::from_file_url(p.to_file_url().as_str());
    assert_eq!(p, q);
}

#[test]
fn drive_token_passes_through() {
    let p = FilePath::from_windows_str(r"c:\x");
    assert!(p.is_absolute());
    assert_eq!(p.to_file_url(), "file:///c:/x");
    let q = FilePath::from_file_url("file:///c:/x");
    assert_eq!(p, q);
}

#[test]
fn backslashes_separate_urls() {
    let one = file_url_to_pathbuf(r"file:\foo\bar");
    let two = FilePath::from_posix_str("/foo/bar");
    assert_eq!(one, two);
}

#[test]
fn encoded_slash_opens_segment_boundary() {
    let one = FilePath::from_file_url("file:///a%2Fb");
    let two = FilePath::from_posix_str("/a/b");
    assert_eq!(one, two);
}

#[test]
fn scheme_alone_is_the_root() {
    let one = FilePath::from_file_url("file:");
    let two = FilePath::from_posix_str("/");
    assert_eq!(one, two);
    assert!(one.is_absolute());
    assert_eq!(one.segment_count(), 0);
}

#[test]
fn empty_and_relative_paths() {
    assert_eq!(FilePath::from_posix_str("").to_file_url(), "file:///");
    assert_eq!(FilePath::from_posix_str("a/b").to_file_url(), "file:///a/b");
    assert!(!FilePath::from_posix_str("a/b").is_absolute());
}

#[test]
fn scheme_less_input_stays_relative() {
    let one = file_url_to_pathbuf("/a/b");
    let two = FilePath::from_posix_str("a/b");
    assert_eq!(one, two);
}

#[test]
fn dot_components_pass_through() {
    assert_eq!(FilePath::from_posix_str("./a").to_file_url(), "file:///./a");
    assert_eq!(FilePath::from_posix_str("../a").to_file_url(), "file:///../a");
}

#[test]
fn repeated_separators_collapse() {
    let one = FilePath::from_posix_str("//a///b");
    let two = FilePath::from_posix_str("/a/b");
    assert_eq!(one, two);
}

#[test]
fn posix_bytes_of_decoded_url() {
    let p = file_url_to_pathbuf("file:///foo/bar%20baz.txt");
    assert_eq!(p.to_posix_bytes(), b"/foo/bar baz.txt".to_vec());
}
