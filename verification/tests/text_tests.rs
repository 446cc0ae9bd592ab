use picl::float::LF64;
use picl::list::List;
use picl::text::complex_to_text;
use picl::text::int_to_text;
use picl::types::LispVal;
use picl::types::Procedure;

fn text(v: LispVal) -> Option<String> {
    v.to_text()
}

#[test]
fn nil_is_written_as_empty_parentheses() {
    assert_eq!(text(LispVal::Nil), Some("()".to_string()));
}

#[test]
fn booleans_are_written_with_a_hash() {
    assert_eq!(text(LispVal::Bool(true)), Some("#t".to_string()));
    assert_eq!(text(LispVal::Bool(false)), Some("#f".to_string()));
}

#[test]
fn a_string_is_written_between_quotes_as_it_is() {
    assert_eq!(text(LispVal::Str("s".to_string())), Some("\"s\"".to_string()));
    assert_eq!(text(LispVal::Str(String::new())), Some("\"\"".to_string()));
    assert_eq!(text(LispVal::Str("a\"b\\".to_string())), Some("\"a\"b\\\"".to_string()));
    assert_eq!(text(LispVal::Str("héllo".to_string())), Some("\"héllo\"".to_string()));
}

#[test]
fn a_symbol_is_written_as_its_name() {
    assert_eq!(text(LispVal::Symbol("s".to_string())), Some("s".to_string()));
    assert_eq!(text(LispVal::Symbol("+".to_string())), Some("+".to_string()));
}

#[test]
fn a_keyword_is_written_behind_a_colon() {
    assert_eq!(text(LispVal::Keyword("s".to_string())), Some(":s".to_string()));
}

#[test]
fn integers_are_written_in_decimal() {
    assert_eq!(text(LispVal::Int(0)), Some("0".to_string()));
    assert_eq!(text(LispVal::Int(7)), Some("7".to_string()));
    assert_eq!(text(LispVal::Int(10)), Some("10".to_string()));
    assert_eq!(text(LispVal::Int(-1)), Some("-1".to_string()));
    assert_eq!(text(LispVal::Int(1234567890)), Some("1234567890".to_string()));
    assert_eq!(text(LispVal::Int(i64::MAX)), Some("9223372036854775807".to_string()));
    assert_eq!(text(LispVal::Int(i64::MIN)), Some("-9223372036854775808".to_string()));
}

#[test]
fn int_to_text_agrees_with_the_native_form() {
    let samples = [0i64, 1, 9, 10, 11, 99, 100, 101, -9, -10, -100, 4096, -65535, i64::MAX, i64::MIN];
    for i in samples {
        assert_eq!(int_to_text(i), format!("{}", i));
    }
    for i in -1500i64..1500 {
        assert_eq!(int_to_text(i), format!("{}", i));
    }
}

#[test]
fn a_complex_number_is_written_with_plus_i_between_its_parts() {
    assert_eq!(complex_to_text("1.5", "2"), "1.5+i2");
    assert_eq!(complex_to_text("-1", "-2"), "-1+i-2");
    assert_eq!(complex_to_text(&format!("{}", 0.5f64), &format!("{}", f64::NAN)), "0.5+iNaN");
}

#[test]
fn a_procedure_is_written_by_its_name() {
    let p = Procedure::new("inc".to_string(), List::new(), List::new());
    assert_eq!(p.to_text(), "Procedure: inc");
    assert_eq!(text(LispVal::Proc(p)), Some("Procedure: inc".to_string()));
}

#[test]
fn floats_and_collections_have_no_text_of_their_own() {
    assert_eq!(text(LispVal::Float(LF64(1.0f64.to_bits()))), None);
    assert_eq!(text(LispVal::Complex(LF64(0), LF64(0))), None);
    assert_eq!(text(LispVal::List(List::new())), None);
    assert_eq!(text(LispVal::Vector(Vec::new())), None);
    assert_eq!(text(LispVal::MapVal(picl::collections::LispMap::new())), None);
    assert_eq!(text(LispVal::SetVal(picl::collections::LispSet::new())), None);
}

#[test]
fn literals_of_one_kind_with_the_same_text_are_equal() {
    let ints = [0i64, 1, -1, 10, 100, -100, 12, 21];
    for a in ints {
        for b in ints {
            assert_eq!(
                text(LispVal::Int(a)) == text(LispVal::Int(b)),
                LispVal::Int(a) == LispVal::Int(b)
            );
        }
    }
    let names = ["", "a", "b", "ab", "\"", "a\"", ":a"];
    for a in names {
        for b in names {
            let (x, y) = (a.to_string(), b.to_string());
            assert_eq!(
                text(LispVal::Str(x.clone())) == text(LispVal::Str(y.clone())),
                a == b
            );
            assert_eq!(
                text(LispVal::Symbol(x.clone())) == text(LispVal::Symbol(y.clone())),
                a == b
            );
            assert_eq!(text(LispVal::Keyword(x)) == text(LispVal::Keyword(y)), a == b);
        }
    }
}

#[test]
fn a_symbol_can_be_written_like_a_boolean() {
    assert_eq!(text(LispVal::Symbol("#t".to_string())), text(LispVal::Bool(true)));
    assert!(LispVal::Symbol("#t".to_string()) != LispVal::Bool(true));
}
