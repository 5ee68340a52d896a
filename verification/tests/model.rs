use scene_model::color::Color;
use scene_model::element::Element;
use scene_model::err::DecodeErr;
use scene_model::mesh::Mesh;
use scene_model::number::Number;
use scene_model::rotation::Rotation;
use scene_model::vector::Vector;

fn num(t: &str) -> Number {
    Number::new(t.to_string()).unwrap()
}

fn coords() -> Vec<Number> {
    vec![
        num("0.0"), num("0.0"), num("0.0"),
        num("10.0"), num("0.0"), num("0.0"),
        num("10.0"), num("-15.0"), num("0.0"),
    ]
}

fn get_blue_test_element() -> Element {
    let info = vec![("Key".to_string(), "Value".to_string())];
    Element::new(
        4,
        Vector::new(num("0.2"), num("0.3"), num("0.4")),
        Rotation::new(num("1.0"), num("1.5"), num("2.0"), num("2.5")),
        String::from("b8a7a2ed-0c30-4c20-867e-baa1ef7b8353"),
        String::from("Plate"),
        Color::new(0, 0, 255, 0),
        None,
        info,
    )
}

#[test]
fn test_new_without_face_colors() {
    let info = vec![("Key".to_string(), "Value".to_string())];
    let result = get_blue_test_element();
    assert_eq!(result.mesh_id, 4);
    assert_eq!(Vector::new(num("0.2"), num("0.3"), num("0.4")).eq(&result.vector), true);
    assert_eq!(
        Rotation::new(num("1.0"), num("1.5"), num("2.0"), num("2.5")).eq(&result.rotation),
        true
    );
    assert_eq!(String::from("b8a7a2ed-0c30-4c20-867e-baa1ef7b8353").eq(&result.guid), true);
    assert_eq!(String::from("Plate").eq(&result.element_type), true);
    assert_eq!(Color::new(0, 0, 255, 0).eq(&result.color), true);
    assert!(result.face_colors.is_none());
    assert_eq!(info.eq(&result.info), true);
}

#[test]
fn element_test_to_json() {
    let input = get_blue_test_element();
    let input_serialized_string = input.to_json();
    assert_eq!(input_serialized_string, "{\"mesh_id\":4,\"vector\":{\"x\":0.2,\"y\":0.3,\"z\":0.4},\"rotation\":{\"qx\":1.0,\"qy\":1.5,\"qz\":2.0,\"qw\":2.5},\"guid\":\"b8a7a2ed-0c30-4c20-867e-baa1ef7b8353\",\"type\":\"Plate\",\"color\":{\"r\":0,\"g\":0,\"b\":255,\"a\":0},\"info\":{\"Key\":\"Value\"}}");
}

#[test]
fn test_new() {
    let result = Mesh::new(12, coords(), vec![0, 1, 2]);
    assert_eq!(result.mesh_id, 12);
    assert_eq!(result.coordinates == coords(), true);
    assert_eq!(result.indices, vec![0, 1, 2]);
}

#[test]
fn test_partialeq_true() {
    let a = Mesh::new(12, coords(), vec![0, 1, 2]);
    let b = Mesh::new(12, coords(), vec![0, 1, 2]);
    assert_eq!(a.eq(&b), true);
    assert_eq!(b.eq(&a), true);
}

#[test]
fn test_partialeq_different_id_false() {
    let a = Mesh::new(11, coords(), vec![0, 1, 2]);
    let b = Mesh::new(12, coords(), vec![0, 1, 2]);
    assert_eq!(a.eq(&b), false);
    assert_eq!(b.eq(&a), false);
}

#[test]
fn test_partialeq_coordinates_count_false() {
    let mut c = coords();
    c.push(num("5.0"));
    c.push(num("1.0"));
    c.push(num("0.0"));
    let a = Mesh::new(12, c, vec![0, 1, 2]);
    let b = Mesh::new(12, coords(), vec![0, 1, 2]);
    assert_eq!(a.eq(&b), false);
    assert_eq!(b.eq(&a), false);
}

#[test]
fn test_partialeq_different_coordinates_false() {
    let mut c = coords();
    c[4] = num("2.0");
    let a = Mesh::new(12, c, vec![0, 1, 2]);
    let b = Mesh::new(12, coords(), vec![0, 1, 2]);
    assert_eq!(a.eq(&b), false);
    assert_eq!(b.eq(&a), false);
}

#[test]
fn test_partialeq_indices_count_false() {
    let a = Mesh::new(12, coords(), vec![0, 1, 2, 2, 1, 0]);
    let b = Mesh::new(12, coords(), vec![0, 1, 2]);
    assert_eq!(a.eq(&b), false);
    assert_eq!(b.eq(&a), false);
}

#[test]
fn test_partialeq_different_indices_false() {
    let a = Mesh::new(12, coords(), vec![0, 2, 1]);
    let b = Mesh::new(12, coords(), vec![0, 1, 2]);
    assert_eq!(a.eq(&b), false);
    assert_eq!(b.eq(&a), false);
}

#[test]
fn mesh_test_to_json() {
    let input = Mesh::new(12, coords(), vec![0, 1, 2]);
    let input_serialized_string = input.to_json();
    assert_eq!(
        input_serialized_string,
        "{\"mesh_id\":12,\"coordinates\":[0.0,0.0,0.0,10.0,0.0,0.0,10.0,-15.0,0.0],\"indices\":[0,1,2]}"
    );
}

#[test]
fn mesh_test_from_json() {
    let json = "{\"mesh_id\":12,\"coordinates\":[0.0,0.0,0.0,10.0,0.0,0.0,10.0,-15.0,0.0],\"indices\":[0,1,2]}";
    let actual_result = Mesh::from_json(json);
    assert_eq!(actual_result.is_ok(), true);
    let actual = actual_result.ok().unwrap();
    let expected = Mesh::new(12, coords(), vec![0, 1, 2]);
    assert_eq!(expected.eq(&actual), true);
}

#[test]
fn mesh_from_json_missing_key_fails() {
    let json = "{\"mesh_id\":12,\"coordinates\":[0.0]}";
    assert!(Mesh::from_json(json).is_err());
}

#[test]
fn mesh_from_json_out_of_order_keys() {
    let json = "{\"indices\":[0,1,2],\"mesh_id\":12,\"coordinates\":[0.0,0.0,0.0,10.0,0.0,0.0,10.0,-15.0,0.0]}";
    let actual = Mesh::from_json(json).unwrap();
    assert!(Mesh::new(12, coords(), vec![0, 1, 2]).eq(&actual));
}

#[test]
fn color_channel_256_fails() {
    assert_eq!(
        Mesh::from_json("{\"mesh_id\":4000000000,\"coordinates\":[],\"indices\":[]}").err(),
        Some(DecodeErr::IntOutOfRange)
    );
}

#[test]
fn number_rejects_bad_token() {
    assert!(Number::new("01".to_string()).is_none());
    assert!(Number::new("1.".to_string()).is_none());
    assert!(Number::new("abc".to_string()).is_none());
    assert!(Number::new("-15.0".to_string()).is_some());
    assert!(Number::new("1e10".to_string()).is_some());
}

#[test]
fn mesh_round_trip_through_text() {
    let m = Mesh::new(7, coords(), vec![2, 1, 0]);
    let back = Mesh::from_json(&m.to_json()).unwrap();
    assert!(m.eq(&back));
}

fn blue_element_json() -> &'static str {
    "{\"mesh_id\":4,\"vector\":{\"x\":0.2,\"y\":0.3,\"z\":0.4},\"rotation\":{\"qx\":1.0,\"qy\":1.5,\"qz\":2.0,\"qw\":2.5},\"guid\":\"b8a7a2ed-0c30-4c20-867e-baa1ef7b8353\",\"type\":\"Plate\",\"color\":{\"r\":0,\"g\":0,\"b\":255,\"a\":0},\"info\":{\"Key\":\"Value\"}}"
}

#[test]
fn element_test_from_json() {
    let actual_result = Element::from_json(blue_element_json());
    assert_eq!(actual_result.is_ok(), true);
    let actual = actual_result.ok().unwrap();
    let expected = get_blue_test_element();
    assert_eq!(expected.eq(&actual), true);
}

#[test]
fn element_round_trip_through_text() {
    let e = get_blue_test_element();
    let back = Element::from_json(&e.to_json()).unwrap();
    assert!(e.eq(&back));
    assert!(back.face_colors.is_none());
}

#[test]
fn element_face_colors_round_trip() {
    let mut e = get_blue_test_element();
    e.face_colors = Some(vec![255, 0, 0, 255, 135, 206, 235, 255]);
    let s = e.to_json();
    assert!(s.contains("\"face_colors\":[255,0,0,255,135,206,235,255]"));
    let back = Element::from_json(&s).unwrap();
    assert!(e.eq(&back));
}

#[test]
fn element_missing_guid_fails() {
    let json = "{\"mesh_id\":4,\"vector\":{\"x\":0.2,\"y\":0.3,\"z\":0.4},\"rotation\":{\"qx\":1.0,\"qy\":1.5,\"qz\":2.0,\"qw\":2.5},\"type\":\"Plate\",\"color\":{\"r\":0,\"g\":0,\"b\":255,\"a\":0},\"info\":{}}";
    assert_eq!(Element::from_json(json).err(), Some(DecodeErr::MissingField));
}

#[test]
fn color_channel_256_fails_to_decode() {
    assert_eq!(
        Color::from_json("{\"r\":0,\"g\":0,\"b\":256,\"a\":0}").err(),
        Some(DecodeErr::IntOutOfRange)
    );
    let json = "{\"mesh_id\":4,\"vector\":{\"x\":0.2,\"y\":0.3,\"z\":0.4},\"rotation\":{\"qx\":1.0,\"qy\":1.5,\"qz\":2.0,\"qw\":2.5},\"guid\":\"g\",\"type\":\"t\",\"color\":{\"r\":0,\"g\":0,\"b\":256,\"a\":0},\"info\":{}}";
    assert_eq!(Element::from_json(json).err(), Some(DecodeErr::IntOutOfRange));
}

#[test]
fn unknown_keys_are_skipped() {
    let json = "{\"mesh_id\":12,\"coordinates\":[0.0],\"indices\":[0],\"extra\":[{\"a\":null},true,1.5]}";
    let m = Mesh::from_json(json).unwrap();
    assert_eq!(m.mesh_id, 12);
    let ej = "{\"mesh_id\":4,\"spare\":\"x\",\"vector\":{\"x\":0.2,\"y\":0.3,\"z\":0.4},\"rotation\":{\"qx\":1.0,\"qy\":1.5,\"qz\":2.0,\"qw\":2.5},\"guid\":\"b8a7a2ed-0c30-4c20-867e-baa1ef7b8353\",\"type\":\"Plate\",\"color\":{\"r\":0,\"g\":0,\"b\":255,\"a\":0},\"info\":{\"Key\":\"Value\"}}";
    let e = Element::from_json(ej).unwrap();
    assert!(get_blue_test_element().eq(&e));
}

#[test]
fn integer_tokens_canonicalize() {
    let n = num("0");
    assert_eq!(n.as_str(), "0.0");
    let m = Mesh::new(1, vec![num("0"), num("-15")], vec![0]);
    assert_eq!(m.to_json(), "{\"mesh_id\":1,\"coordinates\":[0.0,-15.0],\"indices\":[0]}");
    let v = Vector::from_json("{\"x\":1,\"y\":2.5,\"z\":-3}").unwrap();
    assert_eq!(v.x.as_str(), "1.0");
    assert_eq!(v.y.as_str(), "2.5");
    assert_eq!(v.z.as_str(), "-3.0");
}

#[test]
fn surrogate_pair_escape_decodes() {
    let json = "{\"mesh_id\":4,\"vector\":{\"x\":0.2,\"y\":0.3,\"z\":0.4},\"rotation\":{\"qx\":1.0,\"qy\":1.5,\"qz\":2.0,\"qw\":2.5},\"guid\":\"\\uD83D\\uDE00\",\"type\":\"t\",\"color\":{\"r\":0,\"g\":0,\"b\":255,\"a\":0},\"info\":{}}";
    let d = Element::from_json(json).unwrap();
    assert_eq!(d.guid, "\u{1F600}");
}

#[test]
fn duplicate_info_key_keeps_last_value() {
    let json = "{\"mesh_id\":4,\"vector\":{\"x\":0.2,\"y\":0.3,\"z\":0.4},\"rotation\":{\"qx\":1.0,\"qy\":1.5,\"qz\":2.0,\"qw\":2.5},\"guid\":\"g\",\"type\":\"t\",\"color\":{\"r\":0,\"g\":0,\"b\":255,\"a\":0},\"info\":{\"Key\":\"Old\",\"Key\":\"New\"}}";
    let e = Element::from_json(json).unwrap();
    assert_eq!(e.info, vec![("Key".to_string(), "New".to_string())]);
}

#[test]
fn describe_names_the_failure() {
    assert_eq!(DecodeErr::Syntax.describe(), "malformed input text");
    assert_eq!(DecodeErr::IntOutOfRange.describe(), "an integer value is out of range");
}

#[test]
fn validate_checks_documented_invariants() {
    let m = Mesh::new(12, coords(), vec![0, 1, 2]);
    assert!(m.validate());
    let bad = Mesh::new(-1, coords(), vec![0, 1]);
    assert!(!bad.validate());
    let mut e = get_blue_test_element();
    assert!(e.validate());
    e.info.push(("Key".to_string(), "Other".to_string()));
    assert!(!e.validate());
}
