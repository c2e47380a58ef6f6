use order_analysis::hmr_update::{HmrPatch, HmrUpdate};

#[test]
fn an_update_is_a_patch_or_nothing() {
    let patch = HmrPatch { code: String::from("code"), filename: String::from("patch.js") };
    let update = HmrUpdate::Patch(patch);
    match update.clone() {
        HmrUpdate::Patch(patch) => {
            assert_eq!(patch.code, "code");
            assert_eq!(patch.filename, "patch.js");
        }
        HmrUpdate::Noop => panic!("the patch is kept"),
    }
    assert!(matches!(HmrUpdate::Noop.clone(), HmrUpdate::Noop));
    assert_eq!(format!("{:?}", HmrUpdate::Noop), "Noop");
}
