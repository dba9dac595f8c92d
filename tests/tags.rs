use gallery_cache::tags::{tag_pattern, visible_tags, Image};

#[test]
fn hidden_tags_are_dropped() {
    let t = visible_tags("Pick Label 1,sunset,Color Label red,beach,Scanned for faces,Intermediate,Current Version");
    assert_eq!(t, vec!["sunset".to_string(), "beach".to_string()]);
}

#[test]
fn split_keeps_empty_parts() {
    assert_eq!(visible_tags(""), vec!["".to_string()]);
    assert_eq!(visible_tags("a,,b"), vec!["a".to_string(), "".to_string(), "b".to_string()]);
    assert_eq!(visible_tags("a,"), vec!["a".to_string(), "".to_string()]);
}

#[test]
fn prefix_must_start_the_tag() {
    assert_eq!(visible_tags("My Pick Label,Pick Labe"), vec!["My Pick Label".to_string(), "Pick Labe".to_string()]);
}

#[test]
fn image_from_row() {
    let i = Image::from_row("IMG_1.JPG".to_string(), "Color Label 2,dog");
    assert_eq!(i.name, "IMG_1.JPG");
    assert_eq!(i.tags, vec!["dog".to_string()]);
}

#[test]
fn default_pattern_matches_all() {
    assert_eq!(tag_pattern(None), "%");
    assert_eq!(tag_pattern(Some("cat%".to_string())), "cat%");
}
