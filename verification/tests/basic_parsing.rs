use adf::parse;
use adf::object_get;

#[test]
fn test_simple_key_value() {
    let text = "\n# person:\nname = Matthew\nage = 54\n";

    let doc = parse(text).unwrap();
    assert_eq!(doc.get("person.name").unwrap().as_str().unwrap(), "Matthew");
    assert_eq!(doc.get("person.age").unwrap().as_i64().unwrap(), 54);
}

#[test]
fn test_nested_paths() {
    let text = "\n# person.address:\ncity = Fayetteville\nstate = NY\n";

    let doc = parse(text).unwrap();
    assert_eq!(
        doc.get("person.address.city").unwrap().as_str().unwrap(),
        "Fayetteville"
    );
    assert_eq!(
        doc.get("person.address.state").unwrap().as_str().unwrap(),
        "NY"
    );
}

#[test]
fn test_root_section() {
    let text = "\n#:\nname = ADF\nversion = 0.1\n";

    let doc = parse(text).unwrap();
    assert_eq!(doc.get("name").unwrap().as_str().unwrap(), "ADF");
    assert_eq!(
        doc.get("version")
            .unwrap()
            .as_float_lit()
            .unwrap()
            .parse::<f64>()
            .unwrap(),
        0.1
    );
}

#[test]
fn test_scalar_array() {
    let text = "\n# hobbies:\nreading\nphysics\ncoding\n";

    let doc = parse(text).unwrap();
    let hobbies_value = doc.get("hobbies").unwrap();
    let hobbies = hobbies_value.as_array().unwrap();
    assert_eq!(hobbies.len(), 3);
    assert_eq!(hobbies[0].as_str().unwrap(), "reading");
    assert_eq!(hobbies[1].as_str().unwrap(), "physics");
    assert_eq!(hobbies[2].as_str().unwrap(), "coding");
}

#[test]
fn test_object_array() {
    let text = "\n# users:\n\nname = Alice\nage = 22\n\nname = Bob\nage = 30\n";

    let doc = parse(text).unwrap();
    let users_value = doc.get("users").unwrap();
    let users = users_value.as_array().unwrap();
    assert_eq!(users.len(), 2);

    let alice = users[0].as_object().unwrap();
    assert_eq!(
        object_get(alice, &"name".to_string()).unwrap().as_str().unwrap(),
        "Alice"
    );
    assert_eq!(
        object_get(alice, &"age".to_string()).unwrap().as_i64().unwrap(),
        22
    );

    let bob = users[1].as_object().unwrap();
    assert_eq!(
        object_get(bob, &"name".to_string()).unwrap().as_str().unwrap(),
        "Bob"
    );
    assert_eq!(
        object_get(bob, &"age".to_string()).unwrap().as_i64().unwrap(),
        30
    );
}

#[test]
fn test_multiline_value() {
    let text = "\n# article:\nbody = \"\"\"\nThis is line one.\nThis is line two.\n\"\"\"\n";

    let doc = parse(text).unwrap();
    let body_value = doc.get("article.body").unwrap();
    let body = body_value.as_str().unwrap();
    assert!(body.contains("line one"));
    assert!(body.contains("line two"));
    assert_eq!(body, "This is line one.\nThis is line two.");
}

#[test]
fn test_type_inference_integers() {
    let text = "\n#:\ncount = 42\nnegative = -10\n";

    let doc = parse(text).unwrap();
    assert_eq!(doc.get("count").unwrap().as_i64().unwrap(), 42);
    assert_eq!(doc.get("negative").unwrap().as_i64().unwrap(), -10);
}

#[test]
fn test_type_inference_floats() {
    let text = "\n#:\npi = 3.14159\nratio = 0.5\n";

    let doc = parse(text).unwrap();
    assert_eq!(
        doc.get("pi")
            .unwrap()
            .as_float_lit()
            .unwrap()
            .parse::<f64>()
            .unwrap(),
        3.14159
    );
    assert_eq!(
        doc.get("ratio")
            .unwrap()
            .as_float_lit()
            .unwrap()
            .parse::<f64>()
            .unwrap(),
        0.5
    );
}

#[test]
fn test_type_inference_booleans() {
    let text = "\n#:\nenabled = true\ndisabled = false\n";

    let doc = parse(text).unwrap();
    assert_eq!(doc.get("enabled").unwrap().as_bool().unwrap(), true);
    assert_eq!(doc.get("disabled").unwrap().as_bool().unwrap(), false);
}

#[test]
fn test_multiple_sections_same_path() {
    let text = "\n# config:\nname = MyApp\n\n# config:\nversion = 1.0\n";

    let doc = parse(text).unwrap();
    assert_eq!(doc.get("config.name").unwrap().as_str().unwrap(), "MyApp");
    assert_eq!(
        doc.get("config.version")
            .unwrap()
            .as_float_lit()
            .unwrap()
            .parse::<f64>()
            .unwrap(),
        1.0
    );
}

#[test]
fn test_relative_section() {
    let text = "\nupgrade.stats:\nstrength = 12\nagility = 9\n";

    let doc = parse(text).unwrap();
    let relative = doc.relative_sections();
    assert!(object_get(relative, &"upgrade".to_string()).is_some());
}

#[test]
fn test_empty_document() {
    let doc = parse("").unwrap();
    assert_eq!(doc.as_map().len(), 0);
}

#[test]
fn test_dot_notation_in_keys() {
    let text = "\n# server:\nhost.primary = localhost\nhost.backup = backup.example.com\n";

    let doc = parse(text).unwrap();
    assert_eq!(
        doc.get("server.host.primary").unwrap().as_str().unwrap(),
        "localhost"
    );
    assert_eq!(
        doc.get("server.host.backup").unwrap().as_str().unwrap(),
        "backup.example.com"
    );
}
