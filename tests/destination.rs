use pgcopy::destination::{
    handle_configuration_form_request, FieldType, TextField, FIVETRAN_DESTINATION_APPLICATION_NAME,
};

#[test]
fn configuration_form() {
    let r = handle_configuration_form_request();
    assert!(r.schema_selection_supported && r.table_selection_supported);
    let names: Vec<&str> = r.fields.iter().map(|f| f.name.as_str()).collect();
    assert_eq!(names, ["host", "user", "app_password", "dbname"]);
    assert_eq!(r.fields[2].field_type, Some(FieldType::TextField(TextField::Password)));
    assert_eq!(r.fields[0].description.as_deref(), Some("The hostname of your Materialize region"));
    assert!(r.fields.iter().all(|f| f.required));
    let tests: Vec<&str> = r.tests.iter().map(|t| t.name.as_str()).collect();
    assert_eq!(tests, ["connect", "permissions"]);
    assert_eq!(FIVETRAN_DESTINATION_APPLICATION_NAME, "materialize_fivetran_destination");
}
