use log_lexer::errors::{Error, SchemaKey};
use log_lexer::schema::{SchemaConfig, YamlValue};

fn str_val(s: &str) -> YamlValue {
    YamlValue::String(String::from(s))
}

fn full_document() -> Vec<(YamlValue, YamlValue)> {
    vec![
        (
            str_val("timestamp"),
            YamlValue::Sequence(vec![str_val(r"\d{4}-\d{2}-\d{2}")]),
        ),
        (
            str_val("variables"),
            YamlValue::Mapping(vec![(str_val("id"), str_val(r"\d+"))]),
        ),
        (str_val("delimiters"), str_val(" \t")),
    ]
}

#[test]
fn test_extract_schema_parts() {
    let parts = match SchemaConfig::extract_schema_parts(&full_document()) {
        Ok(p) => p,
        Err(_) => panic!("the document is well shaped"),
    };
    assert_eq!(parts.0, vec![String::from(r"\d{4}-\d{2}-\d{2}")]);
    assert_eq!(
        parts.1,
        vec![(String::from("id"), String::from(r"\d+"))]
    );
    assert_eq!(parts.2, String::from(" \t"));
}

#[test]
fn test_missing_schema_keys() {
    let mut doc = full_document();
    doc.remove(0);
    assert_eq!(
        SchemaConfig::extract_schema_parts(&doc).map(|_| ()),
        Err(Error::MissingSchemaKey(SchemaKey::Timestamp))
    );

    let mut doc = full_document();
    doc.remove(1);
    assert_eq!(
        SchemaConfig::extract_schema_parts(&doc).map(|_| ()),
        Err(Error::MissingSchemaKey(SchemaKey::Variables))
    );

    let mut doc = full_document();
    doc.remove(2);
    assert_eq!(
        SchemaConfig::extract_schema_parts(&doc).map(|_| ()),
        Err(Error::MissingSchemaKey(SchemaKey::Delimiters))
    );
}

#[test]
fn test_wrongly_shaped_schema_keys() {
    // The timestamp list must be a sequence.
    let mut doc = full_document();
    doc[0].1 = str_val("not a sequence");
    assert_eq!(
        SchemaConfig::extract_schema_parts(&doc).map(|_| ()),
        Err(Error::InvalidSchema)
    );

    // Every timestamp entry must be a string.
    let mut doc = full_document();
    doc[0].1 = YamlValue::Sequence(vec![YamlValue::Number]);
    assert_eq!(
        SchemaConfig::extract_schema_parts(&doc).map(|_| ()),
        Err(Error::InvalidSchema)
    );

    // The variables must be a mapping of strings to strings.
    let mut doc = full_document();
    doc[1].1 = YamlValue::Mapping(vec![(YamlValue::Bool(true), str_val(r"\d+"))]);
    assert_eq!(
        SchemaConfig::extract_schema_parts(&doc).map(|_| ()),
        Err(Error::InvalidSchema)
    );

    // The delimiters must be a string.
    let mut doc = full_document();
    doc[2].1 = YamlValue::Null;
    assert_eq!(
        SchemaConfig::extract_schema_parts(&doc).map(|_| ()),
        Err(Error::InvalidSchema)
    );
}
