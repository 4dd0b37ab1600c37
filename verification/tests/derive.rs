use bstack_raii::derive::attr::{
    classify_attrs, is_allow_deprecated, is_allow_deprecated_text, is_bstack_mut, is_bstack_static,
    parse_attr, parse_attr_text, read_metas, unknown_opt, Attr, Repr,
};
use bstack_raii::derive::block::{expand, split_params, Param};
use bstack_raii::derive::class::{self, field_shape, Shape};
use bstack_raii::derive::convert::{
    expand_cast, expand_cast_text, expand_move, expand_move_text, CastPlan, MovePlan,
};
use bstack_raii::derive::disc::{
    discriminants, discriminants_of, infer_disc_ty, int_bounds, literal_discriminant,
    parse_disc_expr, payload_size, DiscExpr,
};
use bstack_raii::derive::enums::{expand_enum, Variant, VariantForm, WholeChange};
use bstack_raii::derive::field::Field;
use bstack_raii::derive::kind::{Kind, Mode};
use bstack_raii::derive::mix::{control_mixes, enum_mixes, tag_mixes, Mix};
use bstack_raii::derive::model::{FieldParts, VariantParts};
use bstack_raii::derive::plan::{
    name_getter, name_mutator, name_raw_slice, plan_field, raw_slice_len, FieldForm, Mutator,
};
use bstack_raii::derive::problem::Problem;
use bstack_raii::derive::shape::{
    array_shape, check_container_nesting, field_foreign_target, foreign_targets_in, leaf,
    reject_bad_foreign_target, reject_nested_const_dims, validate_foreign_target,
};
use bstack_raii::derive::syntax::{flat_enough, short_enough, Meta, Target};
use bstack_raii::derive::tag::{
    auto_prefix, block_tags, build_tag, enum_tags, fnv1a64, is_ascii_vowel, letters_in, prefix_in,
    split_words, type_hash, warns_of_length, words_in, Letter,
};
use bstack_raii::derive::ty::{type_mentions_any, Arg, LenExpr, Ty};
use bstack_raii::derive::words::show;

fn s(t: &str) -> String {
    t.to_string()
}

fn path(last: &str) -> Ty {
    Ty::Path { last: s(last), args: vec![], others: vec![] }
}

fn of(last: &str, inner: Ty) -> Ty {
    Ty::Path { last: s(last), args: vec![Arg::Type(inner)], others: vec![] }
}

fn array(elem: Ty, len: &str) -> Ty {
    let idents = if len.parse::<u64>().is_ok() { vec![] } else { vec![s(len)] };
    Ty::Array { elem: Box::new(elem), len: LenExpr { text: s(len), idents } }
}

fn tuple(elems: Vec<Ty>) -> Ty {
    Ty::Tuple { elems }
}

fn field(name: &str, ty: Ty, attrs: &[&str]) -> Field {
    Field { name: s(name), ty, attrs: attrs.iter().map(|a| Some(s(a))).collect() }
}

fn plain() -> Attr {
    parse_attr(vec![]).unwrap()
}

fn word(name: &str) -> Meta {
    Meta::Path(s(name))
}

fn repr(name: Option<&str>) -> Meta {
    Meta::List(s("repr"), name.map(s), None)
}

fn allow(names: Option<Vec<&str>>) -> Meta {
    Meta::List(s("allow"), None, names.map(|v| v.into_iter().map(s).collect()))
}

#[test]
fn attributes_give_the_mode() {
    assert_eq!(plain().mode, Mode::Plain);
    assert_eq!(parse_attr(vec![word("rc")]).unwrap().mode, Mode::Rc);
    assert_eq!(parse_attr(vec![word("weak"), word("rc")]).unwrap().mode, Mode::RcWeak);
    assert_eq!(parse_attr(vec![word("weak")]).err(), Some(Problem::WeakWithoutRc));
    assert_eq!(parse_attr(vec![word("other")]).err(), Some(Problem::UnknownOption));
    assert!(unknown_opt().starts_with("[BSTACK0003] expected `rc`"));
    assert_eq!(Problem::UnknownOption.code(), 3);
}

#[test]
fn attributes_with_values() {
    let value = |n: &str, v: Option<&str>| Meta::NameValue(s(n), v.map(s));
    let a = parse_attr(vec![
        value("tag", Some("AB")),
        value("ctrl_tag", Some("CD")),
        repr(Some("aligned")),
        allow(Some(vec!["overlong_tag", "coerced_ref"])),
    ])
    .unwrap();
    assert_eq!(a.tag, Some(s("AB")));
    assert_eq!(a.ctrl_tag, Some(s("CD")));
    assert_eq!(a.repr, Some(Repr::U64));
    assert!(a.allow_overlong);
    assert!(a.allow_coerced_ref);
    let one = |m: Meta| parse_attr(vec![m]).err();
    assert_eq!(one(value("tag", None)), Some(Problem::NotAString));
    assert_eq!(one(value("name", Some("x"))), Some(Problem::UnknownOption));
    assert_eq!(one(repr(None)), Some(Problem::BadReprList));
    assert_eq!(one(repr(Some("u128"))), Some(Problem::BadReprName));
    assert_eq!(one(repr(Some("usize"))), Some(Problem::ReprOfPointerWidth));
    assert_eq!(one(allow(None)), Some(Problem::BadAllowList));
    assert_eq!(one(allow(Some(vec!["other"]))), Some(Problem::BadAllowName));
    assert_eq!(one(Meta::List(s("other"), None, None)), Some(Problem::UnknownOption));
}

#[test]
fn attributes_are_read_from_their_text() {
    let a = parse_attr_text("rc, weak, tag = \"A\\x42\", allow(deprecated), repr(aligned)").ok().unwrap();
    assert_eq!(a.mode, Mode::RcWeak);
    assert_eq!(a.tag, Some(s("AB")));
    assert_eq!(a.ctrl_tag, None);
    assert!(a.allow_overlong);
    assert!(a.allow_coerced_ref);
    assert_eq!(a.repr, Some(Repr::U64));
    let a = parse_attr_text("").ok().unwrap();
    assert_eq!(a.mode, Mode::Plain);
    let a = parse_attr_text("ctrl_tag = r#\"\"x\"\"#,").ok().unwrap();
    assert_eq!(a.ctrl_tag, Some(s("\"x\"")));
    let no = |text: &str| parse_attr_text(text).err();
    assert_eq!(no("weak"), Some(Problem::WeakWithoutRc));
    assert_eq!(no("a::rc"), Some(Problem::UnknownOption));
    assert_eq!(no("rc weak"), Some(Problem::BadArguments));
    assert_eq!(no("rc,, weak"), Some(Problem::BadArguments));
    assert_eq!(no("tag = \"A"), Some(Problem::BadArguments));
    assert_eq!(no("tag = 5"), Some(Problem::NotAString));
    assert_eq!(no("tag = \"A\".len()"), Some(Problem::NotAString));
    assert_eq!(no("name = \"A\""), Some(Problem::UnknownOption));
    assert_eq!(no("rc(u8)"), Some(Problem::UnknownOption));
    assert_eq!(no("repr(u8, u16)"), Some(Problem::BadReprList));
    assert_eq!(no("repr(isize)"), Some(Problem::ReprOfPointerWidth));
    assert_eq!(no("repr"), Some(Problem::UnknownOption));
    assert_eq!(no("allow(a::b)"), Some(Problem::BadAllowList));
    assert_eq!(no("allow(other)"), Some(Problem::BadAllowName));
    let fields = vec![field("a", path("u8"), &[])];
    let made = class::expand_struct_text(false, "rc", false, &fields).ok().unwrap();
    assert!(made.class.rc);
    assert_eq!(
        class::expand_struct_text(true, "rc weak", false, &fields).err(),
        Some(Problem::GenericClass)
    );
    assert_eq!(
        class::expand_struct_text(false, "rc weak", false, &fields).err(),
        Some(Problem::BadArguments)
    );
    match read_metas("a::b(c), d").ok().unwrap().as_slice() {
        [Meta::List(_, one, many), Meta::Path(d)] => {
            assert_eq!(*one, Some(s("c")));
            assert_eq!(*many, Some(vec![s("c")]));
            assert_eq!(d, "d");
        }
        _ => panic!("a list and a path"),
    }
}

#[test]
fn deep_texts_are_not_looked_at() {
    assert!(short_enough(&"a".repeat(256)));
    assert!(!short_enough(&"a".repeat(257)));
    assert!(flat_enough(&"a, ".repeat(300)));
    assert!(!flat_enough(&"a, ".repeat(400)));
    assert!(short_enough("!#$%&'()*+-/<=>?@[]^`{|}"));
    assert!(!short_enough("!#$%&'()*+-/<=>?@[]^`{|}~"));
    assert!(short_enough(&"_,.:; \"a0\u{e9}".repeat(20)));
    let no = |text: &str| parse_attr_text(text).err();
    assert_eq!(no(&format!("tag = {}x", "!".repeat(23))), Some(Problem::NotAString));
    assert_eq!(no(&format!("tag = {}x", "!".repeat(24))), Some(Problem::ArgumentsTooLong));
    assert_eq!(no(&format!("tag = {}x", "if ".repeat(80))), Some(Problem::BadArguments));
    assert_eq!(
        no(&format!("allow({}{})", "(".repeat(11), ")".repeat(11))),
        Some(Problem::BadAllowList)
    );
    assert!(expand_cast_text(&format!("x as {}X{}", "A<".repeat(12), ">".repeat(12))).is_ok());
    let deep = format!("{}x as {}X", "if ".repeat(75), "&".repeat(24));
    assert_eq!(expand_cast_text(&deep).err(), Some(Problem::NotACast));
    assert_eq!(
        expand_move_text(&format!("{}x", "||".repeat(12))),
        Ok(MovePlan::FromHandle)
    );
    assert_eq!(
        expand_move_text(&format!("{}x", "return ".repeat(36))),
        Ok(MovePlan::FromHandle)
    );
}

#[test]
fn problems_have_words() {
    assert_eq!(show(0), "0");
    assert_eq!(show(-1), "-1");
    assert_eq!(show(1203), "1203");
    assert_eq!(show(i128::MIN), i128::MIN.to_string());
    assert_eq!(show(i128::MAX), i128::MAX.to_string());
    assert_eq!(
        Problem::DuplicateDiscriminant(-7).message(""),
        "[BSTACK0201] discriminant value `-7` assigned more than once"
    );
    assert_eq!(
        Problem::DiscriminantOutOfRange(Repr::U8, 0, 300).message(""),
        "[BSTACK0203] a discriminant value is out of range for `repr(u8)` (values span 0..=300)"
    );
    assert_eq!(Problem::UnknownOption.message(""), unknown_opt());
    assert_eq!(
        Problem::ClassVariable.message("field `x`"),
        "[BSTACK0010] field `x`: `#[bstack_static]` class variables are not yet supported by \
         #[bstack_class]"
    );
    assert!(Problem::ForeignToTuple
        .message("`Vec<Foreign<T>>`")
        .starts_with("[BSTACK0308] `Vec<Foreign<T>>`: a `Foreign` target must be"));
}

#[test]
fn fields_lead_to_their_leaf() {
    let inner = of("Option", of("Foreign", path("X")));
    let whole = array(array(inner, "2"), "3");
    match leaf(&whole) {
        Ty::Path { last, .. } => assert_eq!(last, "X"),
        _ => panic!("a path"),
    }
    match leaf(&of("Box", path("X"))) {
        Ty::Path { last, .. } => assert_eq!(last, "Box"),
        _ => panic!("a path"),
    }
}

#[test]
fn attributes_of_fields() {
    let none: Vec<Option<String>> = vec![];
    assert_eq!(classify_attrs(&none), Ok(Kind::Pod));
    assert_eq!(classify_attrs(&vec![None, Some(s("bstack_owned"))]), Ok(Kind::Owned));
    assert_eq!(classify_attrs(&vec![Some(s("bstack_strong"))]), Ok(Kind::Strong));
    assert_eq!(classify_attrs(&vec![Some(s("bstack_weak"))]), Ok(Kind::Weak));
    assert_eq!(classify_attrs(&vec![Some(s("bstack_ref"))]), Ok(Kind::Ref));
    assert_eq!(classify_attrs(&vec![Some(s("embed"))]), Ok(Kind::Embed));
    assert_eq!(
        classify_attrs(&vec![Some(s("embed")), Some(s("bstack_ref"))]),
        Err(Problem::TooManyAnnotations)
    );
    assert!(is_bstack_mut(&vec![Some(s("bstack_mut"))]));
    assert!(is_bstack_static(&vec![Some(s("bstack_static"))]));
    assert!(!is_bstack_static(&none));
    assert!(is_allow_deprecated(&vec![allow(Some(vec!["dead_code", "deprecated"]))]));
    assert!(!is_allow_deprecated(&vec![allow(None)]));
    assert!(is_allow_deprecated_text("allow(dead_code, deprecated)"));
    assert!(!is_allow_deprecated_text("allow(dead_code)"));
    assert!(!is_allow_deprecated_text("allow(clippy::all, deprecated)"));
    assert!(!is_allow_deprecated_text("warn(deprecated)"));
    assert!(!is_allow_deprecated_text("doc = \"deprecated\""));
}

#[test]
fn hash_has_its_known_values() {
    assert_eq!(fnv1a64(""), 0xcbf2_9ce4_8422_2325);
    assert_eq!(fnv1a64("a"), 0xaf63_dc4c_8601_ec8c);
    assert_eq!(fnv1a64("foobar"), 0x8594_4171_f739_67e8);
    assert_eq!(type_hash("foo", "bar"), fnv1a64("foo\0bar"));
}

#[test]
fn tag_is_prefix_over_hash() {
    let t = build_tag(0x0807_0605_0403_0201, &b"AB".to_vec());
    assert_eq!(t.bytes.0, [b'A', b'B', 0x83, 0x84, 0x85, 0x86, 0x87, 0x88]);
    assert!(!t.truncated);
    let t = build_tag(0, &b"ABCDEFGHIJ".to_vec());
    assert_eq!(&t.bytes.0, b"ABCDEFGH");
    assert!(t.truncated);
    assert!(!build_tag(0, &b"ABCDEFGH".to_vec()).truncated);
}

#[test]
fn words_follow_the_case() {
    assert_eq!(split_words("BlockHeader"), vec!["Block", "Header"]);
    assert_eq!(split_words("HTTPServer"), vec!["HTTP", "Server"]);
    assert_eq!(split_words("snake_case2"), vec!["snake", "case2"]);
    assert_eq!(split_words("A"), vec!["A"]);
    assert!(split_words("__").is_empty());
    assert!(is_ascii_vowel(b'y'));
    assert!(!is_ascii_vowel(b'b'));
}

#[test]
fn prefixes_are_short() {
    assert_eq!(auto_prefix("BlockHeader"), b"BH");
    assert_eq!(auto_prefix("ABlockOfManyManyWords"), b"ABOMM");
    assert_eq!(auto_prefix("Node"), b"ND");
    assert_eq!(auto_prefix("Io"), b"IO");
    assert_eq!(auto_prefix("Transaction"), b"TRNSC");
    assert_eq!(auto_prefix("A"), b"AA");
    assert_eq!(auto_prefix("x"), b"XX");
    assert_eq!(auto_prefix("_1"), b"11");
    assert_eq!(auto_prefix("Oe"), b"OE");
    assert_eq!(auto_prefix(""), b"XX");
    assert_eq!(auto_prefix("\u{e9}"), b"XX");
}

#[test]
fn tags_of_block_and_control_differ() {
    let t = block_tags("pkg", "Node", &None, &None);
    assert_eq!(&t.data.bytes.0[..2], b"ND");
    assert_eq!(&t.control.bytes.0[..2], b"nd");
    assert_eq!(t.data.bytes.0[2..], t.control.bytes.0[2..]);
    let t = block_tags("pkg", "Node", &Some(s("muchtoolong")), &Some(s("X")));
    assert!(t.data.truncated);
    assert!(!t.control.truncated);
    assert!(warns_of_length(true, false, false));
    assert!(!warns_of_length(true, true, false));
    assert!(!warns_of_length(true, false, true));
}

#[test]
fn enum_control_tag_must_differ() {
    assert_eq!(
        enum_tags("pkg", "E", &Some(s("AB")), &Some(s("AB"))).err(),
        Some(Problem::SameControlTag)
    );
    let (tag, control) = enum_tags("pkg", "E", &Some(s("AB")), &Some(s("ab"))).unwrap();
    assert!(!tag.bytes.same(&control.unwrap().bytes));
    assert!(enum_tags("pkg", "E", &None, &None).unwrap().1.is_none());
}

#[test]
fn literals_are_decimal_digits() {
    assert_eq!(parse_disc_expr(&DiscExpr::Literal(s("31"))), Ok(31));
    assert_eq!(parse_disc_expr(&DiscExpr::Literal(s("0001000"))), Ok(1000));
    assert_eq!(parse_disc_expr(&DiscExpr::Negated(s("5"))), Ok(-5));
    assert_eq!(parse_disc_expr(&DiscExpr::Literal(s(""))), Err(Problem::BadIntegerLiteral));
    assert_eq!(parse_disc_expr(&DiscExpr::Literal(s("0x1F"))), Err(Problem::BadIntegerLiteral));
    assert_eq!(
        parse_disc_expr(&DiscExpr::Literal(s("170141183460469231731687303715884105727"))),
        Ok(i128::MAX)
    );
    assert_eq!(
        parse_disc_expr(&DiscExpr::Literal(s("170141183460469231731687303715884105728"))),
        Err(Problem::BadIntegerLiteral)
    );
    assert_eq!(parse_disc_expr(&DiscExpr::Literal(s("\"x\""))), Err(Problem::BadIntegerLiteral));
    assert_eq!(
        parse_disc_expr(&DiscExpr::Literal(s("340282366920938463463374607431768211456"))),
        Err(Problem::BadIntegerLiteral)
    );
    assert_eq!(parse_disc_expr(&DiscExpr::Other), Err(Problem::NotAnIntegerLiteral));
    assert_eq!(literal_discriminant(true, Some(i128::MIN)), Err(Problem::BadIntegerLiteral));
}

#[test]
fn discriminants_count_up() {
    let d = discriminants_of(&vec![None, Some(Ok(300)), None], None).unwrap();
    assert_eq!(d.values, vec![0, 300, 301]);
    assert_eq!(d.ty, Repr::U16);
    let d = discriminants(
        &vec![Some(DiscExpr::Negated(s("1"))), None],
        None,
    )
    .unwrap();
    assert_eq!(d.values, vec![-1, 0]);
    assert_eq!(d.ty, Repr::I8);
    assert_eq!(
        discriminants_of(&vec![Some(Ok(1)), Some(Ok(0)), None], None).err(),
        Some(Problem::DuplicateDiscriminant(1))
    );
    assert_eq!(
        discriminants_of(&vec![Some(Ok(i128::MAX))], None).err(),
        Some(Problem::DiscriminantOverflow)
    );
    assert_eq!(
        discriminants_of(&vec![Some(Ok(256))], Some(Repr::U8)).err(),
        Some(Problem::DiscriminantOutOfRange(Repr::U8, 256, 256))
    );
    assert_eq!(discriminants_of(&vec![], None).unwrap().ty, Repr::U8);
    assert_eq!(int_bounds(Repr::I16), (-32768, 32767));
    assert_eq!(infer_disc_ty(-1, 40000), Repr::I32);
    assert_eq!(infer_disc_ty(0, 1 << 100), Repr::U64);
    assert_eq!(payload_size(&vec![8, 24, 16]), 24);
    assert_eq!(payload_size(&vec![]), 0);
}

#[test]
fn nesting_is_checked() {
    let v = of("Vec", path("u8"));
    assert!(check_container_nesting(&of("Option", of("Vec", of("Option", path("T"))))).is_ok());
    assert_eq!(
        check_container_nesting(&of("Vec", v)).err(),
        Some(Problem::VecInVec)
    );
    assert_eq!(
        check_container_nesting(&of("Option", of("Option", path("T")))).err(),
        Some(Problem::DoubleOption)
    );
    assert_eq!(
        check_container_nesting(&of("Vec", tuple(vec![path("A")]))).err(),
        Some(Problem::TupleInVec)
    );
    let a = array(array(path("T"), "2"), "N");
    let shape = array_shape(&a).unwrap();
    assert_eq!(shape.dims.len(), 2);
    assert!(!shape.nullable);
    assert_eq!(
        reject_nested_const_dims(&shape.dims, &vec![s("N")]).err(),
        Some(Problem::NestedConstArray)
    );
    assert!(reject_nested_const_dims(&shape.dims, &vec![]).is_ok());
    assert_eq!(
        array_shape(&array(of("Option", array(path("T"), "2")), "3")).err(),
        Some(Problem::OptionOfArray)
    );
}

#[test]
fn foreign_targets() {
    let f = of("Foreign", path("X"));
    assert!(field_foreign_target(&of("Vec", of("Option", of("Foreign", path("X"))))).is_some());
    assert!(field_foreign_target(&of("Box", of("Foreign", path("X")))).is_none());
    let t = tuple(vec![path("u8"), f, of("Option", of("Foreign", path("Y")))]);
    assert_eq!(foreign_targets_in(&t).len(), 2);
    assert_eq!(
        reject_bad_foreign_target(&of("Foreign", path("X"))).err(),
        Some(Problem::ForeignToForeign)
    );
    assert_eq!(
        reject_bad_foreign_target(&of("Option", of("Foreign", path("X")))).err(),
        Some(Problem::ForeignToOptionalForeign)
    );
    assert_eq!(
        reject_bad_foreign_target(&of("Option", path("X"))).err(),
        Some(Problem::ForeignToOption)
    );
    assert_eq!(
        reject_bad_foreign_target(&of("Vec", path("X"))).err(),
        Some(Problem::ForeignToVec)
    );
    assert_eq!(
        reject_bad_foreign_target(&array(path("X"), "2")).err(),
        Some(Problem::ForeignToArray)
    );
    assert_eq!(
        reject_bad_foreign_target(&tuple(vec![path("X")])).err(),
        Some(Problem::ForeignToTuple)
    );
    assert_eq!(
        validate_foreign_target(Kind::Embed, &path("X")).err(),
        Some(Problem::EmbeddedForeign)
    );
    assert_eq!(
        validate_foreign_target(Kind::Pod, &path("X")).err(),
        Some(Problem::UnannotatedForeign)
    );
    assert!(validate_foreign_target(Kind::Owned, &path("X")).is_ok());
    assert!(type_mentions_any(&of("Vec", path("T")), &vec![s("T")]));
    assert!(!type_mentions_any(&of("Vec", path("T")), &vec![s("U")]));
}

#[test]
fn shapes_of_a_class() {
    match field_shape(&field("a", of("Option", path("X")), &["bstack_owned"])).unwrap() {
        Shape::Optional(inner) => match *inner {
            Shape::Block(Kind::Owned, _) => {}
            _ => panic!("an owned block"),
        },
        _ => panic!("optional"),
    }
    match field_shape(&field("a", array(array(path("u8"), "2"), "3"), &[])).unwrap() {
        Shape::Array(n, inner) => {
            assert_eq!(n.text, "3");
            match *inner {
                Shape::Array(m, _) => assert_eq!(m.text, "2"),
                _ => panic!("an array"),
            }
        }
        _ => panic!("an array"),
    }
    match field_shape(&field("a", path("String"), &[])).unwrap() {
        Shape::List(inner) => match *inner {
            Shape::Byte => {}
            _ => panic!("a byte"),
        },
        _ => panic!("a list"),
    }
    assert_eq!(
        field_shape(&field("a", path("u8"), &["bstack_static"])).err(),
        Some(Problem::ClassVariable)
    );
    assert_eq!(
        field_shape(&field("a", of("Foreign", path("X")), &["bstack_ref"])).err(),
        Some(Problem::ForeignInClass)
    );
    assert_eq!(
        field_shape(&field("a", tuple(vec![path("u8")]), &[])).err(),
        Some(Problem::TupleInClass)
    );
    assert_eq!(class::expand_enum().err(), Some(Problem::ClassOfEnum));
    assert_eq!(
        class::expand_struct(true, vec![], false, &vec![]).err(),
        Some(Problem::GenericClass)
    );
    let fields = vec![field("a", path("u8"), &[])];
    let made = class::expand_struct(false, vec![word("rc")], false, &fields).ok().unwrap();
    assert_eq!(made.attr.mode, Mode::Rc);
    assert!(made.class.rc);
    assert!(!made.class.weak);
    assert_eq!(made.class.fields.len(), 1);
    assert_eq!(made.block.fields.len(), 1);
    let repr = vec![repr(Some("u8"))];
    assert_eq!(
        class::expand_struct(false, repr, false, &fields).err(),
        Some(Problem::ReprOnStruct)
    );
}

#[test]
fn words_go_by_the_classes() {
    let l = |c: char, alphanumeric, uppercase, lowercase| Letter {
        c,
        alphanumeric,
        uppercase,
        lowercase,
    };
    let cs = vec![
        l('a', true, false, true),
        l('B', true, true, false),
        l('-', false, false, false),
        l('c', true, false, true),
    ];
    assert_eq!(words_in(&cs), vec!["a", "B", "c"]);
    assert_eq!(prefix_in(&cs), b"ABC");
    let plain: Vec<Letter> = "ab".chars().map(|c| l(c, true, false, false)).collect();
    assert_eq!(words_in(&plain), vec!["ab"]);
    assert_eq!(words_in(&letters_in("HTTPServer")), vec!["HTTP", "Server"]);
}

#[test]
fn parameters_are_mixed_into_the_tag() {
    let params = vec![Param::Type(s("T")), Param::Type(s("U")), Param::Const(s("N"))];
    let fields = vec![
        field("a", path("T"), &[]),
        field("b", path("U"), &["bstack_owned"]),
    ];
    let attr = parse_attr(vec![]).unwrap();
    let plan = expand(&attr, false, &params, &fields).ok().unwrap();
    let names: Vec<String> = tag_mixes(&plan)
        .into_iter()
        .map(|m| match m {
            Mix::Tag(p) => format!("tag {p}"),
            Mix::Size(p) => format!("size {p}"),
            Mix::Value(p) => format!("value {p}"),
            Mix::Module => s("module"),
        })
        .collect();
    assert_eq!(names, vec!["size T", "tag U", "value N"]);
    assert_eq!(enum_mixes(&vec![s("T")]).len(), 2);
    assert!(matches!(enum_mixes(&vec![])[0], Mix::Module));
    assert_eq!(control_mixes().len(), 1);
    let tag = build_tag(5, &b"AB".to_vec()).bytes;
    let mixed = tag.mix_str("one::two");
    assert_eq!(&mixed.0[..2], b"AB");
    assert!(!mixed.same(&tag.mix_str("one::three")));
    assert!(!mixed.same(&tag.mix(tag)));
}

#[test]
fn casts_follow_the_target() {
    let to = |last: &str, args: Vec<Option<&str>>| Target {
        text: s("the whole"),
        path: Some((s(last), args.into_iter().map(|a| a.map(s)).collect())),
    };
    let no_path = Target { text: s("()"), path: None };
    assert_eq!(expand_cast(&no_path).err(), Some(Problem::CastTargetNotAPath));
    assert_eq!(
        expand_cast(&to("BStackSlice", vec![])).err(),
        Some(Problem::CastToBorrowedSlice)
    );
    assert_eq!(
        expand_cast(&to("BStackOwned", vec![None])).err(),
        Some(Problem::CastWithoutTarget)
    );
    let shown = |r: Result<CastPlan, Problem>| match r {
        Ok(CastPlan::IntoSlice) => s("slice"),
        Ok(CastPlan::CastInto(t)) => format!("into {t}"),
        Ok(CastPlan::FromLocal(t)) => format!("from {t}"),
        Ok(CastPlan::IntoLocal) => s("local"),
        Ok(CastPlan::CastAs(t)) => format!("as {t}"),
        Err(p) => format!("{p:?}"),
    };
    assert_eq!(shown(expand_cast(&to("BStackOwnedSlice", vec![]))), "slice");
    assert_eq!(shown(expand_cast(&to("BStackOwned", vec![None, Some("X"), Some("Y")]))), "into X");
    assert_eq!(shown(expand_cast(&to("Foreign", vec![Some("X")]))), "from X");
    assert_eq!(shown(expand_cast(&to("BStackRef", vec![Some("X")]))), "local");
    assert_eq!(shown(expand_cast(&to("X", vec![Some("Y")]))), "as the whole");
    assert_eq!(shown(expand_cast_text("slice as BStackOwnedSlice")), "slice");
    assert_eq!(shown(expand_cast_text("f(1) as raii::BStackOwned<'a, X, _>")), "into X");
    assert_eq!(shown(expand_cast_text("(a + b) as Foreign<Y>")), "from Y");
    assert_eq!(shown(expand_cast_text("p as BStackRef<Y>")), "local");
    assert_eq!(shown(expand_cast_text("*p as Node")), "as Node");
    assert_eq!(shown(expand_cast_text("p")), "NotACast");
    assert_eq!(shown(expand_cast_text("a as")), "NotACast");
    assert_eq!(shown(expand_cast_text("a as &X")), "CastTargetNotAPath");
    assert_eq!(shown(expand_cast_text("a as BStackSlice")), "CastToBorrowedSlice");
    assert_eq!(shown(expand_cast_text("a as BStackOwned")), "CastWithoutTarget");
    assert_eq!(shown(expand_cast_text(&"a".repeat(2000))), "ArgumentsTooLong");
    assert_eq!(expand_move_text("handle"), Ok(MovePlan::FromHandle));
    assert_eq!(expand_move_text("owned, &mut f(1, 2),"), Ok(MovePlan::Given));
    assert_eq!(expand_move_text("a, b, c"), Err(Problem::MoveArguments));
    assert_eq!(expand_move_text(""), Err(Problem::MoveArguments));
    assert_eq!(expand_move_text("a b"), Err(Problem::BadArguments));
    assert_eq!(expand_move_text(&"a,".repeat(2000)), Err(Problem::ArgumentsTooLong));
    assert_eq!(expand_move(1), Ok(MovePlan::FromHandle));
    assert_eq!(expand_move(2), Ok(MovePlan::Given));
    assert_eq!(expand_move(3), Err(Problem::MoveArguments));
    assert_eq!(expand_move(0), Err(Problem::MoveArguments));
}

#[test]
fn parts_are_kept_in_order() {
    let mut a: FieldParts<u8, u8> = FieldParts::new();
    a.accessors.push(1);
    let mut b: FieldParts<u8, u8> = FieldParts::new();
    b.accessors.push(2);
    b.ref_coerced = true;
    a.merge(b);
    assert_eq!(a.accessors, vec![1, 2]);
    assert!(a.ref_coerced);
    let mut v: VariantParts<u8, u8> = VariantParts::new();
    let mut w: VariantParts<u8, u8> = VariantParts::new();
    w.drop_arms.push(3);
    w.has_weak = true;
    v.merge(w);
    assert_eq!(v.drop_arms, vec![3]);
    assert!(v.has_weak);
    assert!(!v.has_foreign);
}

fn form(f: &Field) -> u8 {
    match plan_field(f, &vec![]).ok().unwrap().form {
        FieldForm::Foreign(_) => 0,
        FieldForm::Text => 1,
        FieldForm::List(_) => 2,
        FieldForm::ListArray(_) => 3,
        FieldForm::ForeignArray(_) => 4,
        FieldForm::BlockArray(_) => 5,
        FieldForm::ForeignTuple(_) => 6,
        FieldForm::PodTuple(_) => 7,
        FieldForm::Embed(_) => 8,
        FieldForm::Scalar(_) => 9,
    }
}

#[test]
fn fields_take_their_forms() {
    assert_eq!(form(&field("a", of("Foreign", path("X")), &["bstack_ref"])), 0);
    assert_eq!(form(&field("a", path("String"), &[])), 1);
    assert_eq!(form(&field("a", of("Vec", path("X")), &["bstack_owned"])), 2);
    assert_eq!(form(&field("a", array(of("Vec", path("u8")), "2"), &[])), 3);
    assert_eq!(form(&field("a", array(of("Foreign", path("X")), "2"), &["bstack_ref"])), 4);
    assert_eq!(form(&field("a", array(path("X"), "2"), &["bstack_ref"])), 5);
    assert_eq!(
        form(&field("a", tuple(vec![path("u8"), of("Foreign", path("X"))]), &["bstack_ref"])),
        6
    );
    assert_eq!(form(&field("a", tuple(vec![path("u8")]), &[])), 7);
    assert_eq!(form(&field("a", path("X"), &["embed"])), 8);
    assert_eq!(form(&field("a", path("u8"), &[])), 9);
    assert_eq!(form(&field("a", array(path("u8"), "2"), &[])), 9);
    let f = field("a", Ty::Reference { elem: Box::new(path("str")), others: vec![] }, &[]);
    assert!(plan_field(&f, &vec![]).ok().unwrap().coerced);
    assert_eq!(form(&f), 1);
    let opt = field("a", of("Option", path("u64")), &[]);
    assert!(!plan_field(&opt, &vec![]).ok().unwrap().nullable);
    let opt = field("a", of("Option", path("X")), &["bstack_owned"]);
    assert!(plan_field(&opt, &vec![]).ok().unwrap().nullable);
    assert_eq!(
        plan_field(&field("a", of("Box", of("Foreign", path("X"))), &["bstack_ref"]), &vec![])
            .err(),
        Some(Problem::ForeignInOddPlace)
    );
    assert_eq!(
        plan_field(
            &field("a", of("Vec", of("Foreign", path("X"))), &["bstack_ref", "bstack_mut"]),
            &vec![]
        )
        .err(),
        Some(Problem::MutableForeignContainer)
    );
}

#[test]
fn mutators_follow_ownership() {
    let muts = |ty: Ty, attrs: &[&str]| {
        let f = field("a", ty, attrs);
        plan_field(&f, &vec![]).ok().unwrap().mutators()
    };
    let set = Mutator::SetAll;
    let replace = Mutator::ReplaceAll;
    assert_eq!(muts(path("u8"), &[]), vec![]);
    assert_eq!(muts(path("u8"), &["bstack_mut"]), vec![set]);
    assert_eq!(muts(path("X"), &["bstack_owned", "bstack_mut"]), vec![replace]);
    assert_eq!(muts(path("X"), &["bstack_ref", "bstack_mut"]), vec![set, replace]);
    assert_eq!(muts(path("X"), &["bstack_weak"]), vec![set]);
    assert_eq!(
        muts(array(path("X"), "2"), &["bstack_strong", "bstack_mut"]),
        vec![Mutator::ReplaceAt, replace]
    );
    assert_eq!(
        muts(array(path("X"), "2"), &["bstack_ref", "bstack_mut"]),
        vec![Mutator::ReplaceAt, replace, Mutator::SetAt, set]
    );
    assert_eq!(
        muts(of("Foreign", path("X")), &["bstack_weak", "bstack_mut"]),
        vec![replace]
    );
    assert_eq!(muts(tuple(vec![path("u8")]), &["bstack_mut"]), vec![set]);
    let owned = field("a", path("X"), &["bstack_owned"]);
    assert!(plan_field(&owned, &vec![]).ok().unwrap().hands_back());
    let pod = field("a", path("u8"), &[]);
    assert!(!plan_field(&pod, &vec![]).ok().unwrap().hands_back());
    assert_eq!(raw_slice_len(Kind::Pod, 3, 40), 3);
    assert_eq!(raw_slice_len(Kind::Embed, 3, 40), 40);
    assert_eq!(raw_slice_len(Kind::Strong, 3, 40), 8);
    assert_eq!(name_mutator(Mutator::SetAll, "x"), "set_x");
    assert_eq!(name_mutator(Mutator::ReplaceAll, "x"), "replace_x");
    assert_eq!(name_mutator(Mutator::SetAt, "x"), "set_x_at");
    assert_eq!(name_mutator(Mutator::ReplaceAt, "x"), "replace_x_at");
    assert_eq!(name_getter("x"), "get_x");
    assert_eq!(name_raw_slice("x"), "raw_x_slice");
}

#[test]
fn struct_plans() {
    let none: Vec<Param> = vec![];
    let no_fields: Vec<Field> = vec![];
    let mut attr = plain();
    attr.repr = Some(Repr::U8);
    assert_eq!(expand(&attr, false, &none, &no_fields).err(), Some(Problem::ReprOnStruct));
    assert_eq!(
        expand(&plain(), false, &vec![Param::Lifetime], &no_fields).err(),
        Some(Problem::GenericLifetime)
    );
    let t = vec![Param::Type(s("T")), Param::Const(s("N"))];
    let rc = parse_attr(vec![word("rc")]).unwrap();
    assert_eq!(expand(&rc, false, &t, &no_fields).err(), Some(Problem::GenericCounted));
    let both =
        vec![field("a", path("T"), &[]), field("b", path("T"), &["bstack_owned"])];
    assert_eq!(expand(&plain(), false, &t, &both).err(), Some(Problem::GenericPodAndBlock));
    let beside = vec![field(
        "a",
        tuple(vec![path("T"), of("Foreign", path("X"))]),
        &["bstack_ref"],
    )];
    assert_eq!(expand(&plain(), false, &t, &beside).err(), Some(Problem::GenericBesideForeign));
    let fields = vec![
        field("a", path("T"), &["bstack_strong"]),
        field("b", array(path("u8"), "N"), &[]),
        field("c", Ty::Reference { elem: Box::new(path("str")), others: vec![] }, &[]),
    ];
    let plan = expand(&plain(), false, &t, &fields).ok().unwrap();
    assert!(plan.types[0].bounds.block);
    assert!(plan.types[0].bounds.shared);
    assert!(!plan.types[0].on_disk);
    assert_eq!(plan.consts, vec![true]);
    assert_eq!(plan.fields.len(), 3);
    assert!(plan.warns_of_reference);
    assert!(plan.standalone);
    let names = split_params(&t);
    assert_eq!(names.types, vec!["T"]);
    assert_eq!(names.consts, vec!["N"]);
    assert!(!names.lifetime);
}

fn variant(fields: Vec<Field>, attrs: &[&str], named: bool) -> Variant {
    Variant { attrs: attrs.iter().map(|a| Some(s(a))).collect(), fields, named, disc: None }
}

#[test]
fn enum_plans() {
    let none: Vec<Param> = vec![];
    let run = |attr: &Attr, mutable: bool, params: &Vec<Param>, variants: Vec<Variant>| {
        expand_enum("pkg", "E", attr, mutable, params, &variants)
    };
    assert_eq!(
        run(&plain(), false, &vec![Param::Const(s("N"))], vec![]).err(),
        Some(Problem::GenericEnumParameter)
    );
    let t = vec![Param::Type(s("T"))];
    let rc = parse_attr(vec![word("rc")]).unwrap();
    assert_eq!(run(&rc, false, &t, vec![]).err(), Some(Problem::GenericCountedEnum));
    assert_eq!(
        run(&plain(), false, &none, vec![variant(vec![], &["bstack_mut"], false)]).err(),
        Some(Problem::MutableVariant)
    );
    assert_eq!(
        run(&plain(), false, &t, vec![variant(vec![field("0", path("T"), &[])], &[], false)])
            .err(),
        Some(Problem::GenericInlineVariant)
    );
    let beside = tuple(vec![path("T"), of("Foreign", path("X"))]);
    assert_eq!(
        run(
            &plain(),
            false,
            &t,
            vec![variant(vec![field("0", beside, &[])], &["bstack_ref"], false)]
        )
        .err(),
        Some(Problem::GenericBesideForeignVariant)
    );
    assert_eq!(
        run(&rc, true, &none, vec![variant(vec![], &[], false)]).err(),
        Some(Problem::MutableCountedEnum)
    );
    let embedded = variant(vec![field("0", path("X"), &[])], &["embed"], false);
    assert_eq!(
        run(&plain(), true, &none, vec![embedded]).err(),
        Some(Problem::MutableEmbeddingEnum)
    );
    let plan = run(
        &plain(),
        true,
        &none,
        vec![
            variant(vec![], &[], false),
            variant(vec![field("x", path("u8"), &[])], &[], true),
            variant(vec![field("0", path("X"), &[])], &["bstack_strong"], false),
            variant(vec![field("0", path("String"), &[])], &[], false),
        ],
    )
    .ok()
    .unwrap();
    assert_eq!(plan.discriminants.values, vec![0, 1, 2, 3]);
    assert_eq!(plan.variants[0].form, VariantForm::Aggregate);
    assert_eq!(plan.variants[1].form, VariantForm::Aggregate);
    assert_eq!(plan.variants[2].form, VariantForm::Single);
    assert_eq!(plan.variants[3].form, VariantForm::List);
    assert_eq!(plan.change, WholeChange::Exchange);
    assert!(plan.data_borrows);
    assert!(plan.data_allocator);
    assert!(!plan.view_borrows);
    assert!(plan.hands_back);
    let plan = run(&plain(), true, &none, vec![variant(vec![], &[], false)]).ok().unwrap();
    assert_eq!(plan.change, WholeChange::Overwrite);
    assert!(!plan.hands_back);
}
