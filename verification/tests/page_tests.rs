use suspense_reproduction::page::{
    cleanup_message, load_failed_text, loading_text, panel_content, suspense_string,
    transition_string, PanelContent, FETCH_DELAY_MS,
};

#[test]
fn panels_load_their_strings() {
    assert_eq!(suspense_string(), "This is a Suspense String");
    assert_eq!(transition_string(), "This is a Transition String");
    assert_eq!(loading_text(), "Loading");
    assert_eq!(FETCH_DELAY_MS, 450);
}

#[test]
fn failure_line_names_the_error() {
    assert_eq!(load_failed_text("timed out"), "Load Failed timed out");
    assert_eq!(load_failed_text(""), "Load Failed ");
}

#[test]
fn cleanup_line_names_the_stored_value() {
    assert_eq!(cleanup_message(""), "string_ref = ");
    assert_eq!(cleanup_message("kept"), "string_ref = kept");
}

#[test]
fn panel_shows_nothing_without_a_result() {
    assert_eq!(panel_content(None), None);
}

#[test]
fn panel_shows_field_or_failure() {
    let value = "X".to_string();
    let error = "no route".to_string();
    assert_eq!(
        panel_content(Some(Ok(&value))),
        Some(PanelContent::Field { value: "X".to_string() })
    );
    assert_eq!(
        panel_content(Some(Err(&error))),
        Some(PanelContent::Failure { message: "Load Failed no route".to_string() })
    );
}
