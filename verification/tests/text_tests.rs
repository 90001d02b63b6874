use file_browser_core::text::contains_substring;
use file_browser_core::text::name_matches;

#[test]
fn substring_present() {
    assert!(contains_substring("hello world", "o w"));
    assert!(contains_substring("hello", "hello"));
    assert!(contains_substring("hello", "lo"));
    assert!(contains_substring("hello", "h"));
}

#[test]
fn substring_absent() {
    assert!(!contains_substring("hello", "world"));
    assert!(!contains_substring("ab", "abc"));
    assert!(!contains_substring("", "a"));
}

#[test]
fn empty_pattern_always_occurs() {
    assert!(contains_substring("anything", ""));
    assert!(contains_substring("", ""));
}

#[test]
fn name_matching_lowercases_the_name() {
    // Would fail if the lowercasing step handed its input back unchanged.
    assert!(name_matches("PHOTO.JPG", "photo"));
    assert!(name_matches("MiXeD.txt", "mixed"));
    assert!(!name_matches("photo.jpg", "PHOTO"));
}

#[test]
fn name_matching_is_substring_matching() {
    assert!(name_matches("summer-photos-2019", "photos"));
    assert!(!name_matches("summer", "photos"));
}
