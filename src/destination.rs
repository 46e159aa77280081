//! The configuration form that the destination connector presents to its
//! host: the connection fields it asks for and the checks it can run.

use vstd::prelude::*;

verus! {

/// The application name that the destination reports when it connects.
pub const FIVETRAN_DESTINATION_APPLICATION_NAME: &'static str = "materialize_fivetran_destination";

/// How a text field of the form is shown.
#[derive(Debug, Clone, Copy, PartialEq, Eq, Structural)]
pub enum TextField {
    PlainText,
    Password,
}

/// The kind of input a form field takes.
#[derive(Debug, Clone, Copy, PartialEq, Eq, Structural)]
pub enum FieldType {
    TextField(TextField),
}

/// One input of the configuration form.
#[derive(Debug)]
pub struct FormField {
    pub name: String,
    pub label: String,
    pub description: Option<String>,
    pub required: bool,
    pub field_type: Option<FieldType>,
}

/// A check that the host can ask the destination to run.
#[derive(Debug)]
pub struct ConfigurationTest {
    pub name: String,
    pub label: String,
}

/// The configuration form.
#[derive(Debug)]
pub struct ConfigurationFormResponse {
    pub schema_selection_supported: bool,
    pub table_selection_supported: bool,
    pub fields: Vec<FormField>,
    pub tests: Vec<ConfigurationTest>,
}

/// A required text field with a description.
pub open spec fn is_field(f: FormField, name: &str, label: &str, description: &str, kind: TextField) -> bool {
    &&& f.name@ == name@
    &&& f.label@ == label@
    &&& f.description is Some && f.description->Some_0@ == description@
    &&& f.required
    &&& f.field_type == Some(FieldType::TextField(kind))
}

fn field(name: &str, label: &str, description: &str, kind: TextField) -> (r: FormField)
    ensures
        is_field(r, name, label, description, kind),
{
    FormField {
        name: name.to_owned(),
        label: label.to_owned(),
        description: Some(description.to_owned()),
        required: true,
        field_type: Some(FieldType::TextField(kind)),
    }
}

fn check(name: &str, label: &str) -> (r: ConfigurationTest)
    ensures
        r.name@ == name@,
        r.label@ == label@,
{
    ConfigurationTest { name: name.to_owned(), label: label.to_owned() }
}

/// The configuration form: schema and table selection, the host, user, app
/// password and database fields, and the connection and permission checks.
pub fn handle_configuration_form_request() -> (r: ConfigurationFormResponse)
    ensures
        r.schema_selection_supported,
        r.table_selection_supported,
        r.fields@.len() == 4,
        is_field(r.fields@[0], "host", "Host", "The hostname of your Materialize region", TextField::PlainText),
        is_field(r.fields@[1], "user", "User", "The user to connect as", TextField::PlainText),
        is_field(
            r.fields@[2],
            "app_password",
            "App password",
            "The app password to authenticate with",
            TextField::Password,
        ),
        is_field(r.fields@[3], "dbname", "Database", "The name of the database to connect to", TextField::PlainText),
        r.tests@.len() == 2,
        r.tests@[0].name@ == "connect"@ && r.tests@[0].label@ == "Connecting to Materialize region"@,
        r.tests@[1].name@ == "permissions"@ && r.tests@[1].label@ == "Checking permissions"@,
{
    let fields = vec![
        field("host", "Host", "The hostname of your Materialize region", TextField::PlainText),
        field("user", "User", "The user to connect as", TextField::PlainText),
        field("app_password", "App password", "The app password to authenticate with", TextField::Password),
        field("dbname", "Database", "The name of the database to connect to", TextField::PlainText),
    ];
    let tests = vec![
        check("connect", "Connecting to Materialize region"),
        check("permissions", "Checking permissions"),
    ];
    ConfigurationFormResponse {
        schema_selection_supported: true,
        table_selection_supported: true,
        fields,
        tests,
    }
}

} // verus!
