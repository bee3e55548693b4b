use smartcut_core::nice::{asked, behind, BEHIND};

#[test]
fn a_setting_is_read() {
    assert_eq!(asked(None), BEHIND);
    assert_eq!(asked(Some(" 5 ")), 5);
    assert_eq!(asked(Some("-3")), -3);
    assert_eq!(asked(Some("lots")), 10);
    assert_eq!(asked(Some("99999999999")), 10);
}

#[test]
fn nought_leaves_a_pass_where_it_is() {
    assert_eq!(behind(0), None);
    assert_eq!(behind(-7), Some(0));
    assert_eq!(behind(12), Some(12));
    assert_eq!(behind(40), Some(19));
}
