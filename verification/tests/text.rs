use blobsync::text::{chars_of, replace_char_with};

#[test]
fn replace_dash_with_text() {
    assert_eq!(replace_char_with("a-b--c", '-', "_"), "a_b__c");
    assert_eq!(replace_char_with("a-b", '-', ""), "ab");
    assert_eq!(replace_char_with("ä-ö", '-', " + "), "ä + ö");
    assert_eq!(replace_char_with("", '-', "_"), "");
}

#[test]
fn chars_of_text() {
    assert_eq!(chars_of("aé€"), vec!['a', 'é', '€']);
}
