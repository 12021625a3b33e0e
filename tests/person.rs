use cargo_example::random::{DRAW_HIGH, DRAW_LOW};
use cargo_example::{random_number, ParseError, Person};

fn person(name: &str, age: u32, email: &str) -> Person {
    Person::new(String::from(name), age, String::from(email))
}

#[test]
fn test_person_creation() {
    let person = Person {
        name: String::from("测试"),
        age: 30,
        email: String::from("test@example.com"),
    };
    assert_eq!(person.name, "测试");
    assert_eq!(person.age, 30);
}

#[test]
fn test_json_serialization() {
    let person = Person {
        name: String::from("JSON测试"),
        age: 25,
        email: String::from("json@example.com"),
    };

    let json = person.encode();
    let person2 = Person::decode(&json).unwrap();

    assert_eq!(person.name, person2.name);
    assert_eq!(person.age, person2.age);
}

#[test]
fn accessors_return_what_was_supplied() {
    let p = person("测试", 30, "test@example.com");
    assert_eq!(p.name(), "测试");
    assert_eq!(p.age(), 30);
    assert_eq!(p.email(), "test@example.com");
}

#[test]
fn round_trip_of_the_sample_record() {
    let p = person("张三", 25, "zhangsan@example.com");
    let text = p.encode();
    let q = Person::decode(&text).unwrap();
    assert_eq!(q.name, "张三");
    assert_eq!(q.age, 25);
    assert_eq!(q.email, "zhangsan@example.com");
}

#[test]
fn encoding_has_a_fixed_layout() {
    let p = person("张三", 25, "zhangsan@example.com");
    assert_eq!(
        p.encode(),
        "{\"name\":\"张三\",\"age\":25,\"email\":\"zhangsan@example.com\"}"
    );
    assert_eq!(p.encode(), p.encode());
}

#[test]
fn encoding_escapes_special_characters() {
    let p = person("a\"b\\c\nd\te\rf", 0, "x\u{8}y\u{c}z");
    assert_eq!(
        p.encode(),
        "{\"name\":\"a\\\"b\\\\c\\nd\\te\\rf\",\"age\":0,\"email\":\"x\\by\\fz\"}"
    );
    let q = Person::decode(&p.encode()).unwrap();
    assert_eq!(q.name, "a\"b\\c\nd\te\rf");
    assert_eq!(q.age, 0);
    assert_eq!(q.email, "x\u{8}y\u{c}z");
}

#[test]
fn round_trip_of_empty_strings_and_largest_age() {
    let p = person("", u32::MAX, "");
    assert_eq!(p.encode(), "{\"name\":\"\",\"age\":4294967295,\"email\":\"\"}");
    let q = Person::decode(&p.encode()).unwrap();
    assert_eq!(q.name, "");
    assert_eq!(q.age, u32::MAX);
    assert_eq!(q.email, "");
}

#[test]
fn decode_of_a_written_text() {
    let q = Person::decode("{\"name\":\"Ann\",\"age\":7,\"email\":\"a@b.c\"}").unwrap();
    assert_eq!(q.name, "Ann");
    assert_eq!(q.age, 7);
    assert_eq!(q.email, "a@b.c");
}

#[test]
fn missing_age_is_refused() {
    let r = Person::decode("{\"name\":\"张三\",\"email\":\"zhangsan@example.com\"}");
    assert_eq!(r.err(), Some(ParseError));
}

#[test]
fn age_of_wrong_type_is_refused() {
    let r = Person::decode("{\"name\":\"Ann\",\"age\":\"7\",\"email\":\"a@b.c\"}");
    assert_eq!(r.err(), Some(ParseError));
    let r = Person::decode("{\"name\":\"Ann\",\"age\":-7,\"email\":\"a@b.c\"}");
    assert_eq!(r.err(), Some(ParseError));
}

#[test]
fn age_too_large_is_refused() {
    let r = Person::decode("{\"name\":\"Ann\",\"age\":4294967296,\"email\":\"a@b.c\"}");
    assert_eq!(r.err(), Some(ParseError));
}

#[test]
fn non_canonical_texts_are_refused() {
    for t in [
        "",
        "{}",
        "{\"name\":\"Ann\",\"age\":07,\"email\":\"a@b.c\"}",
        "{\"name\":\"Ann\",\"age\":7,\"email\":\"a@b.c\"} ",
        "{\"name\":\"Ann\",\"age\":7,\"email\":\"a@b.c\"",
        "{\"name\":\"A\\qn\",\"age\":7,\"email\":\"a@b.c\"}",
        "{\"name\":\"Ann\",\"age\":7,\"email\":\"a@b.c\",\"x\":1}",
    ] {
        assert_eq!(Person::decode(t).err(), Some(ParseError), "text {:?}", t);
    }
}

#[test]
fn random_number_stays_in_range() {
    for _ in 0..1000 {
        let n = random_number();
        assert!(DRAW_LOW <= n && n <= DRAW_HIGH);
    }
    assert_eq!((DRAW_LOW, DRAW_HIGH), (1, 100));
}
