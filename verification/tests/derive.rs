//! The derive-contract tests: records and tagged unions described by a
//! schema and run through the interpreter, with `skip`, `when` and `len`
//! annotations and explicit variant discriminants.
use resend::config::Config;
use resend::error::Error;
use resend::schema::{
    receive_enum, receive_struct, receive_value, resolve_tags, send_struct, send_value, Attr,
    Cmp, FieldSchema, LenSrc, Pred, RecSchema, TagWidth, Ty, UnionSchema, Value, VariantSchema,
};
use resend::{Rcv, Snd};

fn point_schema() -> RecSchema {
    RecSchema {
        fields: vec![
            FieldSchema { ty: Ty::U16, attr: Attr::Plain },
            FieldSchema { ty: Ty::U16, attr: Attr::Plain },
            FieldSchema { ty: Ty::Text, attr: Attr::Len(LenSrc::Field(0)) },
            FieldSchema { ty: Ty::Wide, attr: Attr::Len(LenSrc::Field(1)) },
        ],
    }
}

fn point_value(x: u16, y: u16, s: &str, u: &str) -> Vec<Value> {
    vec![
        Value::U16(x),
        Value::U16(y),
        Value::Text(s.to_string()),
        Value::Wide(u.to_string()),
    ]
}

fn color_schema() -> UnionSchema {
    UnionSchema {
        width: TagWidth::Two,
        variants: vec![
            VariantSchema { tag: 2, payload: None },
            VariantSchema { tag: 32, payload: None },
            VariantSchema { tag: 4, payload: None },
        ],
    }
}

fn person_schema() -> RecSchema {
    RecSchema {
        fields: vec![
            FieldSchema { ty: Ty::Text, attr: Attr::Plain },
            FieldSchema { ty: Ty::U16, attr: Attr::Plain },
            FieldSchema { ty: Ty::U32, attr: Attr::Plain },
            FieldSchema {
                ty: Ty::Opt(Box::new(Ty::Bool)),
                attr: Attr::When(Pred { field: 1, op: Cmp::Gt, rhs: 30 }),
            },
            FieldSchema { ty: Ty::Wide, attr: Attr::Plain },
            FieldSchema { ty: Ty::U32, attr: Attr::Skip },
            FieldSchema { ty: Ty::Union(Box::new(color_schema())), attr: Attr::Plain },
            FieldSchema { ty: Ty::Rec(Box::new(point_schema())), attr: Attr::Plain },
        ],
    }
}

#[test]
fn test_point() -> Result<(), Error> {
    let c = Config::little();
    let mut vec = Vec::new();
    let p = point_value(5, 8, "1234", "123");
    send_struct(&p, &point_schema(), &mut vec, c)?;

    let mut buf = &vec[..];
    let p1 = receive_struct(&point_schema(), &mut buf, c)?;
    assert_eq!(p, p1);
    Ok(())
}

#[test]
fn test_person() -> Result<(), Error> {
    let c = Config::little();
    let mut vec = Vec::new();
    let p = vec![
        Value::Text("Great".to_string()),
        Value::U16(32),
        Value::U32(0xF8342122),
        Value::Opt(Some(Box::new(Value::Bool(true)))),
        Value::Wide("people".to_string()),
        Value::U32(33),
        Value::Case(2, None),
        Value::Rec(point_value(5, 12, "great", "12345")),
    ];

    send_struct(&p, &person_schema(), &mut vec, c)?;

    vec.snd(2_u16, c)?;

    vec.snd(&234, c)?;

    let mut buf = &vec[..];
    let mut p1 = receive_struct(&person_schema(), &mut buf, c)?;
    assert_eq!(p1[5], Value::U32(0));
    p1[5] = Value::U32(33);
    assert_eq!(p, p1);

    let v: u8 = buf.rcv(c)?;

    if v == 0 {
        println!("*** big endian");
    } else if v == 2 {
        println!("*** little endian");
    } else {
        panic!("Wrong");
    }

    Ok(())
}

fn device_schema() -> UnionSchema {
    let tags = resolve_tags(&vec![None, Some(2), Some(22)]);
    UnionSchema {
        width: TagWidth::Four,
        variants: vec![
            VariantSchema { tag: tags[0], payload: None },
            VariantSchema { tag: tags[1], payload: None },
            VariantSchema { tag: tags[2], payload: Some(Ty::Rec(Box::new(point_schema()))) },
        ],
    }
}

#[test]
fn test_enum() -> Result<(), Error> {
    let c = Config::little();
    let tags = resolve_tags(&vec![Some(2), Some(32), Some(4)]);
    assert_eq!(32, tags[1]);
    let mut vec = Vec::new();
    let blue = Value::Case(1, None);
    let color_ty = Ty::Union(Box::new(color_schema()));
    send_value(&blue, &color_ty, &mut vec, c)?;

    let device_ty = Ty::Union(Box::new(device_schema()));
    send_value(&Value::Case(1, None), &device_ty, &mut vec, c)?;

    let p = Value::Rec(point_value(5, 8, "1234", "123"));
    send_value(&Value::Case(2, Some(Box::new(p))), &device_ty, &mut vec, c)?;

    let mut buf = &vec[..];
    let cv = receive_value(&color_ty, &mut buf, c)?;
    assert_eq!(cv, Value::Case(1, None));

    let dt = receive_value(&device_ty, &mut buf, c)?;
    assert_eq!(dt, Value::Case(1, None));

    let dt = receive_value(&device_ty, &mut buf, c)?;
    assert_eq!(
        dt,
        Value::Case(2, Some(Box::new(Value::Rec(point_value(5, 8, "1234", "123")))))
    );

    Ok(())
}

#[test]
fn test_unit_enum() -> Result<(), Error> {
    let c = Config::little();
    let tags = resolve_tags(&vec![Some(2), Some(32), Some(4)]);
    assert_eq!(32, tags[1]);
    let mut vec = Vec::new();
    send_value(&Value::Case(1, None), &Ty::Union(Box::new(color_schema())), &mut vec, c)?;

    let mut buf = &vec[..];
    let cv = receive_enum(&color_schema(), &mut buf, c)?;
    assert_eq!(cv, Value::Case(1, None));

    let raw = [32_u8, 0];
    let mut b: &[u8] = raw.as_ref();
    let cv = receive_enum(&color_schema(), &mut b, c)?;
    assert_eq!(cv, Value::Case(1, None));

    Ok(())
}
