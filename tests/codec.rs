use dotlines::{
    from_text, to_lines, to_string, variant, write_tree, DeserializeError, Deserializer, Line,
    SerializeError, Serializer, Shape, Value,
};

fn scalar(s: &str) -> Value {
    Value::Scalar(s.to_string())
}

fn keyed(entries: Vec<(&str, Value)>) -> Value {
    Value::Keyed(entries.into_iter().map(|(k, v)| (k.to_string(), v)).collect())
}

fn keyed_shape(fields: Vec<(&str, Shape)>) -> Shape {
    Shape::Keyed(fields.into_iter().map(|(k, s)| (k.to_string(), s)).collect())
}

fn a3da_value() -> Value {
    let converter = keyed(vec![("version", scalar(&20050823usize.to_string()))]);
    let property = keyed(vec![("version", scalar(&20050706usize.to_string()))]);
    let metadata = keyed(vec![
        ("converter", converter),
        ("file_name", scalar("CAMPV001_BASE.a3da")),
        ("property", property),
    ]);
    keyed(vec![("_", metadata)])
}

fn a3da_shape() -> Shape {
    keyed_shape(vec![(
        "_",
        keyed_shape(vec![
            ("converter", keyed_shape(vec![("version", Shape::Scalar)])),
            ("file_name", Shape::Scalar),
            ("property", keyed_shape(vec![("version", Shape::Scalar)])),
        ]),
    )])
}

#[test]
fn serialize_seq() {
    let seq = Value::Sequence(vec![scalar(&39.39f64.to_string()), scalar(&420.69f64.to_string())]);
    let out = to_string(&seq).unwrap();
    assert_eq!(out, "0=39.39\n1=420.69\nlength=2\n");
}

#[test]
fn serialize_struct() {
    let bar = f64::from(39.39f32).to_string();
    let baz: Vec<Value> = [39u8, 39, 69, 0].iter().map(|b| scalar(&b.to_string())).collect();
    let test = keyed(vec![
        ("foo", scalar(&69u32.to_string())),
        ("bar", scalar(&bar)),
        ("baz_array", Value::Sequence(baz)),
    ]);
    let out = to_string(&test).unwrap();
    let expected = format!(
        "foo=69\nbar={}\nbaz_array.0=39\nbaz_array.1=39\nbaz_array.2=69\nbaz_array.3=0\nbaz_array.length=4\n",
        bar
    );
    assert_eq!(out, expected);
}

#[test]
fn serialize_struct2() {
    let result = to_string(&a3da_value()).unwrap();
    let output = "_.converter.version=20050823
_.file_name=CAMPV001_BASE.a3da
_.property.version=20050706
";
    assert_eq!(result, output);
}

#[test]
fn round_trip_nested_record() {
    let v = a3da_value();
    let text = to_string(&v).unwrap();
    let back = from_text(&text, &a3da_shape()).unwrap();
    assert_eq!(back, v);
}

#[test]
fn round_trip_sequence_of_records() {
    let v = Value::Sequence(vec![
        keyed(vec![("x", scalar("1")), ("y", scalar("2"))]),
        keyed(vec![("x", scalar("3")), ("y", scalar("4"))]),
    ]);
    let shape = Shape::Sequence(Box::new(keyed_shape(vec![("x", Shape::Scalar), ("y", Shape::Scalar)])));
    let text = to_string(&v).unwrap();
    assert_eq!(text, "0.x=1\n0.y=2\n1.x=3\n1.y=4\nlength=2\n");
    assert_eq!(from_text(&text, &shape).unwrap(), v);
}

#[test]
fn round_trip_long_sequence_uses_multi_digit_labels() {
    let items: Vec<Value> = (0..12).map(|i: u32| scalar(&(i * 7).to_string())).collect();
    let v = Value::Sequence(items);
    let text = to_string(&v).unwrap();
    assert!(text.contains("\n10=70\n11=77\nlength=12\n"));
    let back = from_text(&text, &Shape::Sequence(Box::new(Shape::Scalar))).unwrap();
    assert_eq!(back, v);
}

#[test]
fn round_trip_through_lines() {
    let v = a3da_value();
    let lines = to_lines(&v).unwrap();
    assert_eq!(lines.len(), 3);
    assert_eq!(lines[1].path, vec!["_".to_string(), "file_name".to_string()]);
    assert_eq!(lines[1].value, "CAMPV001_BASE.a3da");
    let de = Deserializer::from_lines(lines);
    assert_eq!(dotlines::decode(&de, &a3da_shape()).unwrap(), v);
}

#[test]
fn order_of_fields_is_kept() {
    let v = keyed(vec![
        ("zeta", keyed(vec![("b", scalar("1")), ("a", scalar("2"))])),
        ("alpha", scalar("3")),
        ("mid", Value::Sequence(vec![scalar("4")])),
    ]);
    let text = to_string(&v).unwrap();
    assert_eq!(text, "zeta.b=1\nzeta.a=2\nalpha=3\nmid.0=4\nmid.length=1\n");
}

#[test]
fn grouping_by_prefix() {
    let de = Deserializer::new("a.b.c=1\na.b.d=2\na.e=3\n").unwrap();
    let mut top = de.commons(0);
    let a = top.next(&de).unwrap();
    assert_eq!(a.scope_peek(&de), Some("a".to_string()));
    assert!(top.next(&de).is_none());

    let mut mid = a.subdivide(&de);
    let b = mid.next(&de).unwrap();
    assert_eq!(b.scope_peek(&de), Some("b".to_string()));
    let e = mid.next(&de).unwrap();
    assert_eq!(e.scope_peek(&de), Some("e".to_string()));
    assert!(mid.next(&de).is_none());

    let mut low = b.subdivide(&de);
    let c = low.next(&de).unwrap();
    assert_eq!(c.scope_peek(&de), Some("c".to_string()));
    let d = low.next(&de).unwrap();
    assert_eq!(d.scope_peek(&de), Some("d".to_string()));
    assert!(low.next(&de).is_none());

    let mut leaf = c;
    assert_eq!(leaf.next_line(&de).unwrap().value, "1");
    assert!(leaf.next_line(&de).is_none());
    assert_eq!(leaf.scope(), Some("c".to_string()));
}

#[test]
fn run_iteration_stops_at_prefix_change() {
    let de = Deserializer::new("a.x=1\na.y=2\nb.x=3\n").unwrap();
    let mut run = de.get_cmn(0);
    assert_eq!(run.scope(), None);
    assert_eq!(run.next_line(&de).unwrap().value, "1");
    assert_eq!(run.next_line(&de).unwrap().value, "2");
    assert!(run.next_line(&de).is_none());
    assert!(run.next_line(&de).is_none());
    assert_eq!(run.position(), 2);

    let mut other = de.get_cmn(0);
    other.clear_state(&de);
    assert_eq!(other.position(), 2);
    assert_eq!(other.scope(), None);
}

#[test]
fn empty_input_decodes_to_empty_structures() {
    let seq = from_text("", &Shape::Sequence(Box::new(Shape::Scalar))).unwrap();
    assert_eq!(seq, Value::Sequence(vec![]));
    let rec = from_text("", &Shape::Keyed(vec![])).unwrap();
    assert_eq!(rec, Value::Keyed(vec![]));
    let de = Deserializer::new("").unwrap();
    assert_eq!(de.len(), 0);
    assert!(de.commons(0).next(&de).is_none());
}

#[test]
fn empty_value_writes_empty_document() {
    assert_eq!(to_string(&Value::Keyed(vec![])).unwrap(), "");
    assert_eq!(to_lines(&Value::Keyed(vec![])).unwrap().len(), 0);
}

#[test]
fn malformed_line_is_an_error() {
    let r = from_text("foo", &keyed_shape(vec![("foo", Shape::Scalar)]));
    assert_eq!(r, Err(DeserializeError::MalformedLine(0)));
    let r2 = Deserializer::new("a=1\nfoo\nb=2\n");
    assert!(matches!(r2, Err(DeserializeError::MalformedLine(1))));
}

#[test]
fn label_mismatch_is_shape_mismatch() {
    let r = from_text("x=1\n", &keyed_shape(vec![("y", Shape::Scalar)]));
    assert_eq!(r, Err(DeserializeError::ShapeMismatch(0)));
}

#[test]
fn missing_field_is_eof() {
    let r = from_text("x=1\n", &keyed_shape(vec![("x", Shape::Scalar), ("y", Shape::Scalar)]));
    assert_eq!(r, Err(DeserializeError::Eof(1)));
}

#[test]
fn nested_line_read_as_scalar_is_shape_mismatch() {
    let r = from_text("x.y=1\n", &keyed_shape(vec![("x", Shape::Scalar)]));
    assert_eq!(r, Err(DeserializeError::ShapeMismatch(0)));
}

#[test]
fn wrong_length_is_shape_mismatch() {
    let r = from_text("0=a\nlength=5\n", &Shape::Sequence(Box::new(Shape::Scalar)));
    assert_eq!(r, Err(DeserializeError::ShapeMismatch(1)));
}

#[test]
fn sequence_without_length_is_eof() {
    let r = from_text("0=a\n", &Shape::Sequence(Box::new(Shape::Scalar)));
    assert_eq!(r, Err(DeserializeError::Eof(1)));
}

#[test]
fn top_level_scalar_shape_is_unsupported() {
    let r = from_text("a=1\n", &Shape::Scalar);
    assert_eq!(r, Err(DeserializeError::UnsupportedConstruct));
}

#[test]
fn bare_scalar_cannot_be_written() {
    assert_eq!(to_string(&scalar("1")), Err(SerializeError::UnsupportedConstruct));
    let inner_empty = keyed(vec![("a", Value::Keyed(vec![]))]);
    assert_eq!(to_string(&inner_empty), Err(SerializeError::UnsupportedConstruct));
}

#[test]
fn lines_are_trimmed() {
    let r = from_text("  a=1 \r\n\tb=x y\n", &keyed_shape(vec![("a", Shape::Scalar), ("b", Shape::Scalar)]));
    assert_eq!(r.unwrap(), keyed(vec![("a", scalar("1")), ("b", scalar("x y"))]));
}

#[test]
fn value_keeps_text_after_first_equals() {
    let de = Deserializer::new("k=a=b\n").unwrap();
    assert_eq!(de.peek().unwrap().value, "a=b");
    assert_eq!(de.split_line(), Some(("k".to_string(), "a=b".to_string())));
}

#[test]
fn unsigned_and_signed_scalars() {
    let de = Deserializer::new("n=42\nm=-17\nbig=18446744073709551616\nw=abc\nlow=-9223372036854775808\n").unwrap();
    let mut de = de;
    assert_eq!(de.parse_unsigned(), Ok(42));
    assert_eq!(de.parse_signed(), Ok(42));
    de.read();
    assert_eq!(de.parse_signed(), Ok(-17));
    assert_eq!(de.parse_unsigned(), Err(DeserializeError::ExpectedInteger));
    de.read();
    assert_eq!(de.parse_unsigned(), Err(DeserializeError::ExpectedInteger));
    de.read();
    assert_eq!(de.parse_signed(), Err(DeserializeError::ExpectedInteger));
    de.read();
    assert_eq!(de.parse_signed(), Ok(i64::MIN));
    de.read();
    assert_eq!(de.parse_unsigned(), Err(DeserializeError::Eof(5)));
}

#[test]
fn cursor_reads_lines_in_order() {
    let mut de = Deserializer::new("a.b=1\nc=2\n").unwrap();
    assert_eq!(de.split_lhs(), Some(vec!["a".to_string(), "b".to_string()]));
    assert_eq!(de.properties(), Some(vec!["a".to_string(), "b".to_string()]));
    assert_eq!(de.split(), Some(("a.b".to_string(), "1".to_string())));
    assert_eq!(de.read_line(), Some("a.b=1".to_string()));
    assert_eq!(de.rest_of_lines().len(), 1);
    let line = de.read().unwrap();
    assert_eq!(line, Line { path: vec!["c".to_string()], value: "2".to_string() });
    assert!(de.peek().is_none());
    assert!(de.read().is_none());
    assert!(de.read_line().is_none());
}

#[test]
fn prefix_of_a_line() {
    let line = Line { path: vec!["a".to_string(), "b".to_string(), "c".to_string()], value: "1".to_string() };
    assert_eq!(dotlines::get_prefix(&line, 1), vec!["a".to_string(), "b".to_string()]);
    assert_eq!(dotlines::get_prefix(&line, 5).len(), 3);
}

#[test]
fn tagged_variant_writes_type_first() {
    let v = variant(2, vec![("x".to_string(), scalar("1"))]);
    assert_eq!(to_string(&v).unwrap(), "type=2\nx=1\n");
    let shape = keyed_shape(vec![("type", Shape::Scalar), ("x", Shape::Scalar)]);
    assert_eq!(from_text("type=2\nx=1\n", &shape).unwrap(), v);
}

#[test]
fn builder_enter_write_leave() {
    let mut ser = Serializer::new();
    ser.enter("a".to_string());
    ser.enter("b".to_string());
    ser.write_scalar("1".to_string());
    ser.leave();
    ser.write_scalar("2".to_string());
    ser.leave();
    ser.enter("c".to_string());
    ser.write_scalar("3".to_string());
    ser.leave();
    let tree = ser.finish();
    assert_eq!(write_tree(&tree), "a.b=1\na=2\nc=3\n");
}

#[test]
fn default_builder_is_an_empty_tree() {
    let ser = Serializer::default();
    let tree = ser.finish();
    assert_eq!(write_tree(&tree), "");
}

#[test]
fn one_line_rendered() {
    let line = Line { path: vec!["a".to_string(), "b".to_string()], value: "x".to_string() };
    assert_eq!(dotlines::render_line(&line), "a.b=x\n");
}

#[test]
fn shorter_line_inside_committed_prefix_joins_the_run() {
    let de = Deserializer::new("a.b=1\na=2\nc=3\n").unwrap();
    let mut run = dotlines::LineAccess::new(0, 1);
    assert_eq!(run.next_line(&de).unwrap().value, "1");
    assert_eq!(run.next_line(&de).unwrap().value, "2");
    assert!(run.next_line(&de).is_none());
    let mut drained = dotlines::LineAccess::new(0, 1);
    drained.clear_state(&de);
    assert_eq!(drained.position(), 2);
}

#[test]
fn scalar_scope_of_two_lines_is_shape_mismatch() {
    let r = from_text("a=1\na=2\n", &keyed_shape(vec![("a", Shape::Scalar)]));
    assert_eq!(r, Err(DeserializeError::ShapeMismatch(0)));
}

fn two_variants() -> Shape {
    Shape::Variant(vec![
        keyed_shape(vec![("x", Shape::Scalar)]),
        keyed_shape(vec![("y", Shape::Scalar), ("z", Shape::Scalar)]),
    ])
}

#[test]
fn variant_is_chosen_by_its_type_line() {
    let v = variant(1, vec![("y".to_string(), scalar("5")), ("z".to_string(), scalar("6"))]);
    let text = to_string(&v).unwrap();
    assert_eq!(text, "type=1\ny=5\nz=6\n");
    assert_eq!(from_text(&text, &two_variants()).unwrap(), v);
    let w = from_text("type=0\nx=7\n", &two_variants()).unwrap();
    assert_eq!(w, variant(0, vec![("x".to_string(), scalar("7"))]));
}

#[test]
fn variant_inside_a_record() {
    let v = keyed(vec![("kind", variant(0, vec![("x".to_string(), scalar("9"))]))]);
    let text = to_string(&v).unwrap();
    assert_eq!(text, "kind.type=0\nkind.x=9\n");
    let shape = Shape::Keyed(vec![("kind".to_string(), two_variants())]);
    assert_eq!(from_text(&text, &shape).unwrap(), v);
}

#[test]
fn unknown_variant_index_is_shape_mismatch() {
    assert_eq!(from_text("type=7\nx=1\n", &two_variants()), Err(DeserializeError::ShapeMismatch(0)));
    assert_eq!(from_text("x=1\n", &two_variants()), Err(DeserializeError::ShapeMismatch(0)));
    assert_eq!(from_text("", &two_variants()), Err(DeserializeError::Eof(0)));
    let not_keyed = Shape::Variant(vec![Shape::Scalar]);
    assert_eq!(from_text("type=0\n", &not_keyed), Err(DeserializeError::UnsupportedConstruct));
}

#[test]
fn length_scope_of_two_lines_is_shape_mismatch() {
    let r = from_text("0=a\nlength=1\nlength=1\n", &Shape::Sequence(Box::new(Shape::Scalar)));
    assert_eq!(r, Err(DeserializeError::ShapeMismatch(1)));
}

#[test]
fn read_moves_the_cursor_even_at_the_end() {
    let mut de = Deserializer::new("a=1\n").unwrap();
    assert!(de.read().is_some());
    assert_eq!(de.get_cmn(0).position(), 1);
    assert!(de.read().is_none());
    assert_eq!(de.get_cmn(0).position(), 2);
    assert!(de.peek().is_none());
    assert_eq!(de.rest_of_lines().len(), 0);
}

#[test]
fn error_names_the_failing_line() {
    let shape = keyed_shape(vec![("a", Shape::Scalar), ("b", Shape::Scalar), ("c", Shape::Scalar)]);
    assert_eq!(from_text("a=1\nb=2\nd=3\n", &shape), Err(DeserializeError::ShapeMismatch(2)));
    assert_eq!(from_text("a=1\nb=2\n", &shape), Err(DeserializeError::Eof(2)));
}

#[test]
fn keys_and_texts_that_cannot_be_read_back_are_refused() {
    let bad = [
        keyed(vec![("", scalar("1"))]),
        keyed(vec![("a.b", scalar("1"))]),
        keyed(vec![("a=b", scalar("1"))]),
        keyed(vec![("a\nb", scalar("1"))]),
        keyed(vec![("a", scalar("1\n2"))]),
        Value::Sequence(vec![keyed(vec![("x.y", scalar("1"))])]),
    ];
    for v in bad.iter() {
        assert_eq!(to_string(v), Err(SerializeError::UnsupportedConstruct));
        assert_eq!(to_lines(v), Err(SerializeError::UnsupportedConstruct));
    }
    assert_eq!(to_string(&keyed(vec![("a b", scalar("x=y.z"))])).unwrap(), "a b=x=y.z\n");
}
