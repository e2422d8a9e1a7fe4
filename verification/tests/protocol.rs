use tiempodb::protocol::Line;

#[test]
fn protocol_simple_test() {
    let str =
        "weather,location=us-midwest,country=us temperature=82,humidity=75 1465839830100400200";
    let line = Line::parse(str.as_bytes()).expect("should exist");
    assert_eq!("weather", line.timeseries_name());

    assert_eq!(1465839830100400200, line.timestamp);

    assert_eq!(
        vec![("location", "us-midwest"), ("country", "us")],
        line.tags()
    );
    assert_eq!(
        vec![("temperature", "82"), ("humidity", "75")],
        line.fields()
    );
}

#[test]
fn no_tags() {
    let str = "weather temperature=82,humidity=75 1465839830100400200";
    let line = Line::parse(str.as_bytes()).expect("should exist");
    assert_eq!("weather", line.timeseries_name());

    assert_eq!(1465839830100400200, line.timestamp);

    assert_eq!(Vec::<(&str, &str)>::new(), line.tags());
    assert_eq!(
        vec![("temperature", "82"), ("humidity", "75")],
        line.fields()
    );
}

#[test]
fn timestamp_is_manadtory() {
    let str = "weather temperature=82,humidity=75";
    let line = Line::parse(str.as_bytes());
    assert!(line.is_none());
}

#[test]
fn series_name_is_mandatory() {
    let str = "temperature=82,humidity=75 1465839830100400200";
    let line = Line::parse(str.as_bytes());
    assert!(line.is_none());
}

#[test]
fn at_least_one_field_is_required() {
    let str = "weather 1465839830100400200";
    let line = Line::parse(str.as_bytes());
    assert!(line.is_none());
}

#[test]
fn test_field_iterator() {
    let str =
        "weather,location=us-midwest,country=us temperature=82,humidity=75 1465839830100400200";
    let line = Line::parse(str.as_bytes()).expect("should exist");
    let mut iter = line.fields_iter();
    let mut fields_from_iter: Vec<(&str, &str)> = Vec::new();
    while let Some(field) = iter.next() {
        fields_from_iter.push(field);
    }
    assert_eq!(
        vec![("temperature", "82"), ("humidity", "75")],
        fields_from_iter
    );
}

#[test]
fn empty_parts_are_rejected() {
    assert!(Line::parse(b"").is_none());
    assert!(Line::parse(b" f=1 1").is_none());
    assert!(Line::parse(b"w, f=1 1").is_none());
    assert!(Line::parse(b"w,=v f=1 1").is_none());
    assert!(Line::parse(b"w,k= f=1 1").is_none());
    assert!(Line::parse(b"w f=1, 1").is_none());
    assert!(Line::parse(b"w f=1 ").is_none());
    assert!(Line::parse(b"w  1").is_none());
}

#[test]
fn a_second_equals_sign_is_rejected() {
    assert!(Line::parse(b"w f=1=2 1").is_none());
    assert!(Line::parse(b"w,k=a=b f=1 1").is_none());
}

#[test]
fn timestamp_is_digits_to_the_end() {
    assert!(Line::parse(b"w f=1 12a").is_none());
    assert!(Line::parse(b"w f=1 12 ").is_none());
    assert!(Line::parse(b"w f=1 -1").is_none());
    let line = Line::parse(b"w f=1 007").expect("leading zeros are digits");
    assert_eq!(7, line.timestamp);
}

#[test]
fn timestamp_fits_64_bits() {
    let line = Line::parse(b"w f=1 18446744073709551615").expect("the largest timestamp");
    assert_eq!(u64::MAX, line.timestamp);
    assert!(Line::parse(b"w f=1 18446744073709551616").is_none());
    assert!(Line::parse(b"w f=1 99999999999999999999999").is_none());
}

#[test]
fn bytes_that_are_no_text_are_rejected() {
    assert!(Line::parse(&[b'w', 0xff, b' ', b'f', b'=', b'1', b' ', b'1']).is_none());
}

#[test]
fn text_beyond_ascii_is_kept() {
    let str = "wetter,ort=köln temperatur=21.5,gefühl=wärme 17";
    let line = Line::parse(str.as_bytes()).expect("should exist");
    assert_eq!("wetter", line.timeseries_name());
    assert_eq!(vec![("ort", "köln")], line.tags());
    assert_eq!(
        vec![("temperatur", "21.5"), ("gefühl", "wärme")],
        line.fields()
    );
    assert_eq!(17, line.timestamp);
}

#[test]
fn fields_come_in_written_order() {
    let line = Line::parse(b"m,t1=a,t2=b z=1,a=2,m=3 5").expect("should exist");
    assert_eq!(vec![("z", "1"), ("a", "2"), ("m", "3")], line.fields());
    let mut iter = line.fields_iter();
    assert_eq!(Some(("z", "1")), iter.next());
    assert_eq!(Some(("a", "2")), iter.next());
    assert_eq!(Some(("m", "3")), iter.next());
    assert_eq!(None, iter.next());
    assert_eq!(None, iter.next());
}
