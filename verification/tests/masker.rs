use sam_env_diff::masker::{mask_value, maybe_mask};

#[test]
fn long_value_shows_tail() {
    assert_eq!(mask_value("sk-abc123def7f3a"), "****7f3a");
}

#[test]
fn short_value_fully_masked() {
    assert_eq!(mask_value("yes"), "****");
}

#[test]
fn empty_value_masked() {
    assert_eq!(mask_value(""), "****");
}

#[test]
fn exactly_four_chars_masked() {
    assert_eq!(mask_value("abcd"), "****");
}

#[test]
fn five_chars_shows_one() {
    assert_eq!(mask_value("abcde"), "****bcde");
}

#[test]
fn reveal_returns_full() {
    assert_eq!(maybe_mask("secret", true), "secret");
}

#[test]
fn no_reveal_masks() {
    assert_eq!(maybe_mask("secret", false), "****cret");
}

#[test]
fn multibyte_tail_counts_characters() {
    assert_eq!(mask_value("pässwörd€"), "****örd€");
    assert_eq!(mask_value("üñí€"), "****");
}
