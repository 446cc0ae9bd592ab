use picl::collections::LispMap;
use picl::collections::LispSet;
use picl::float::LF64;
use picl::list::List;
use picl::types::LispList;
use picl::types::LispVal;
use picl::types::Procedure;

fn lf(x: f64) -> LF64 {
    LF64(x.to_bits())
}

fn sym(name: &str) -> LispVal {
    LispVal::Symbol(name.to_string())
}

fn list_of(items: Vec<LispVal>) -> LispList {
    let mut l = List::new();
    for v in items.into_iter().rev() {
        l = l.cons(v);
    }
    l
}

fn set_of(items: Vec<LispVal>) -> LispSet {
    let mut s = LispSet::new();
    for v in items {
        s.insert(v);
    }
    s
}

fn one_two() -> LispVal {
    LispVal::List(list_of(vec![LispVal::Int(1), LispVal::Int(2)]))
}

#[test]
fn the_form_plus_one_two_is_walked_in_order() {
    let form: LispList = List::new()
        .cons(LispVal::Int(2))
        .cons(LispVal::Int(1))
        .cons(LispVal::Symbol("+".to_string()));
    let mut walk = form.iter();
    assert_eq!(walk.next(), Some(&sym("+")));
    assert_eq!(walk.next(), Some(&LispVal::Int(1)));
    assert_eq!(walk.next(), Some(&LispVal::Int(2)));
    assert_eq!(walk.next(), None);
    assert_eq!(form.to_vec(), vec![&sym("+"), &LispVal::Int(1), &LispVal::Int(2)]);
}

#[test]
fn sets_of_equal_lists_are_equal_and_collide_in_an_outer_set() {
    let a = LispVal::SetVal(set_of(vec![one_two()]));
    let b = LispVal::SetVal(set_of(vec![one_two()]));
    assert!(a == b);
    assert_eq!(a.hash_code(), b.hash_code());
    let mut outer = LispSet::new();
    assert!(outer.insert(a));
    assert!(!outer.insert(b));
    assert_eq!(outer.len(), 1);
    let c = LispVal::SetVal(set_of(vec![one_two()]));
    assert!(outer.contains(&c));
}

#[test]
fn values_of_different_kinds_differ() {
    let all = vec![
        LispVal::Nil,
        LispVal::Bool(false),
        LispVal::Str("0".to_string()),
        LispVal::Symbol("0".to_string()),
        LispVal::Keyword("0".to_string()),
        LispVal::Float(lf(0.0)),
        LispVal::Int(0),
        LispVal::Complex(lf(0.0), lf(0.0)),
        LispVal::List(List::new()),
        LispVal::Vector(Vec::new()),
        LispVal::MapVal(LispMap::new()),
        LispVal::SetVal(LispSet::new()),
        LispVal::Proc(Procedure::new("0".to_string(), List::new(), List::new())),
    ];
    for (i, a) in all.iter().enumerate() {
        for (j, b) in all.iter().enumerate() {
            assert_eq!(a == b, i == j, "{:?} {:?}", a, b);
        }
    }
}

#[test]
fn atoms_are_equal_by_their_contents() {
    assert!(LispVal::Nil == LispVal::Nil);
    assert!(LispVal::Bool(true) == LispVal::Bool(true));
    assert!(LispVal::Bool(true) != LispVal::Bool(false));
    assert!(LispVal::Int(7) == LispVal::Int(7));
    assert!(LispVal::Int(7) != LispVal::Int(-7));
    assert!(LispVal::Str("a".to_string()) == LispVal::Str("a".to_string()));
    assert!(LispVal::Str("a".to_string()) != LispVal::Str("b".to_string()));
    assert!(sym("a") == sym("a"));
    assert!(sym("a") != sym("ab"));
    assert!(LispVal::Keyword("k".to_string()) == LispVal::Keyword("k".to_string()));
    assert!(LispVal::Keyword("k".to_string()) != LispVal::Keyword("l".to_string()));
}

#[test]
fn floats_in_values_are_equal_as_floats_are() {
    assert!(LispVal::Float(lf(f64::NAN)) == LispVal::Float(lf(-f64::NAN)));
    assert!(LispVal::Float(lf(0.0)) == LispVal::Float(lf(-0.0)));
    assert!(LispVal::Float(lf(1.5)) != LispVal::Float(lf(2.5)));
    assert!(LispVal::Complex(lf(1.0), lf(f64::NAN)) == LispVal::Complex(lf(1.0), lf(f64::NAN)));
    assert!(LispVal::Complex(lf(1.0), lf(2.0)) != LispVal::Complex(lf(2.0), lf(1.0)));
    assert_eq!(
        LispVal::Float(lf(f64::NAN)).hash_code(),
        LispVal::Float(lf(-f64::NAN)).hash_code()
    );
    assert_eq!(LispVal::Float(lf(0.0)).hash_code(), LispVal::Float(lf(-0.0)).hash_code());
}

#[test]
fn lists_and_vectors_are_equal_in_order() {
    let a = LispVal::List(list_of(vec![LispVal::Int(1), sym("x")]));
    let b = LispVal::List(list_of(vec![LispVal::Int(1), sym("x")]));
    let c = LispVal::List(list_of(vec![sym("x"), LispVal::Int(1)]));
    let d = LispVal::List(list_of(vec![LispVal::Int(1)]));
    assert!(a == b);
    assert!(a != c);
    assert!(a != d);
    assert!(d != a);
    let v = LispVal::Vector(vec![LispVal::Int(1), sym("x")]);
    let w = LispVal::Vector(vec![LispVal::Int(1), sym("x")]);
    let u = LispVal::Vector(vec![sym("x"), LispVal::Int(1)]);
    assert!(v == w);
    assert!(v != u);
    assert!(v != a);
    assert_eq!(a.hash_code(), b.hash_code());
    assert_eq!(v.hash_code(), w.hash_code());
}

#[test]
fn sets_are_equal_whatever_the_order_of_arrival() {
    let a = LispVal::SetVal(set_of(vec![LispVal::Int(1), sym("x"), one_two()]));
    let b = LispVal::SetVal(set_of(vec![one_two(), LispVal::Int(1), sym("x")]));
    let c = LispVal::SetVal(set_of(vec![one_two(), LispVal::Int(1)]));
    assert!(a == b);
    assert!(b == a);
    assert!(a != c);
    assert!(c != a);
    assert_eq!(a.hash_code(), b.hash_code());
}

#[test]
fn a_set_keeps_one_of_equal_members() {
    let mut s = LispSet::new();
    assert_eq!(s.len(), 0);
    assert!(s.insert(LispVal::Float(lf(f64::NAN))));
    assert!(!s.insert(LispVal::Float(lf(-f64::NAN))));
    assert!(s.insert(LispVal::Int(1)));
    assert!(!s.insert(LispVal::Int(1)));
    assert!(s.insert(LispVal::Str("1".to_string())));
    assert_eq!(s.len(), 3);
    assert_eq!(s.members().len(), 3);
    assert!(s.contains(&LispVal::Int(1)));
    assert!(!s.contains(&LispVal::Int(2)));
}

#[test]
fn maps_are_equal_whatever_the_order_of_arrival() {
    let mut m = LispMap::new();
    assert_eq!(m.insert("a".to_string(), LispVal::Int(1)), None);
    assert_eq!(m.insert("b".to_string(), LispVal::Int(2)), None);
    let mut n = LispMap::new();
    n.insert("b".to_string(), LispVal::Int(2));
    n.insert("a".to_string(), LispVal::Int(1));
    let mut o = LispMap::new();
    o.insert("a".to_string(), LispVal::Int(1));
    o.insert("b".to_string(), LispVal::Int(3));
    let mut p = LispMap::new();
    p.insert("a".to_string(), LispVal::Int(1));
    let (m, n, o, p) =
        (LispVal::MapVal(m), LispVal::MapVal(n), LispVal::MapVal(o), LispVal::MapVal(p));
    assert!(m == n);
    assert!(n == m);
    assert!(m != o);
    assert!(m != p);
    assert!(p != m);
    assert_eq!(m.hash_code(), n.hash_code());
}

#[test]
fn a_map_gives_each_key_its_last_value() {
    let mut m = LispMap::new();
    assert_eq!(m.len(), 0);
    assert_eq!(m.get("a"), None);
    assert_eq!(m.insert("a".to_string(), LispVal::Int(1)), None);
    assert_eq!(m.insert("b".to_string(), LispVal::Int(2)), None);
    assert_eq!(m.get("a"), Some(&LispVal::Int(1)));
    assert_eq!(m.insert("a".to_string(), LispVal::Int(10)), Some(LispVal::Int(1)));
    assert_eq!(m.get("a"), Some(&LispVal::Int(10)));
    assert_eq!(m.get("b"), Some(&LispVal::Int(2)));
    assert_eq!(m.get("c"), None);
    assert_eq!(m.len(), 2);
    let entries = m.entries();
    assert_eq!(entries[0].0, "a");
    assert_eq!(entries[1].0, "b");
}

#[test]
fn procedures_are_equal_by_name_parameters_and_body() {
    let make = |name: &str, param: &str, n: i64| {
        LispVal::Proc(Procedure::new(
            name.to_string(),
            list_of(vec![sym(param)]),
            list_of(vec![LispVal::List(list_of(vec![sym("+"), sym(param), LispVal::Int(n)]))]),
        ))
    };
    assert!(make("inc", "x", 1) == make("inc", "x", 1));
    assert!(make("inc", "x", 1) != make("dec", "x", 1));
    assert!(make("inc", "x", 1) != make("inc", "y", 1));
    assert!(make("inc", "x", 1) != make("inc", "x", 2));
    assert_eq!(make("inc", "x", 1).hash_code(), make("inc", "x", 1).hash_code());
}

#[test]
fn a_procedure_hands_back_its_parts() {
    let p = Procedure::new("f".to_string(), list_of(vec![sym("a")]), list_of(vec![sym("a")]));
    assert_eq!(p.name(), "f");
    assert_eq!(p.params().head(), Some(&sym("a")));
    assert_eq!(p.body().to_vec(), vec![&sym("a")]);
}

#[test]
fn nested_values_can_be_members_and_keys() {
    let inner = || {
        let mut m = LispMap::new();
        m.insert("k".to_string(), LispVal::Vector(vec![one_two(), LispVal::Float(lf(f64::NAN))]));
        LispVal::MapVal(m)
    };
    let mut s = LispSet::new();
    assert!(s.insert(inner()));
    assert!(!s.insert(inner()));
    assert!(s.contains(&inner()));
    assert_eq!(inner().hash_code(), inner().hash_code());
}

#[test]
fn hashes_have_their_exact_values() {
    let step: u64 = 0x0000_0100_0000_01b3;
    let seed: u64 = 0xcbf2_9ce4_8422_2325;
    let mix = |h: u64, x: u64| h.wrapping_mul(step).wrapping_add(x);
    let tagged = |kind: u64, code: u64| mix(mix(seed, kind), code);
    let text = |s: &str| s.bytes().fold(seed, |h, b| mix(h, b as u64));
    assert_eq!(LispVal::Nil.hash_code(), tagged(0, 0));
    assert_eq!(LispVal::Bool(true).hash_code(), tagged(1, 1));
    assert_eq!(LispVal::Bool(false).hash_code(), tagged(1, 0));
    assert_eq!(LispVal::Str("hé".to_string()).hash_code(), tagged(2, text("hé")));
    assert_eq!(sym("+").hash_code(), tagged(3, mix(seed, 43)));
    assert_eq!(LispVal::Keyword("k".to_string()).hash_code(), tagged(4, text("k")));
    assert_eq!(LispVal::Float(lf(1.0)).hash_code(), tagged(5, 1.0f64.to_bits()));
    assert_eq!(LispVal::Float(lf(f64::NAN)).hash_code(), tagged(5, 0x7ff8_0000_0000_0000));
    assert_eq!(LispVal::Int(0).hash_code(), tagged(6, 0));
    assert_eq!(LispVal::Int(3).hash_code(), tagged(6, 6));
    assert_eq!(LispVal::Int(-1).hash_code(), tagged(6, 1));
    assert_eq!(LispVal::Int(-3).hash_code(), tagged(6, 5));
    assert_eq!(LispVal::Int(i64::MAX).hash_code(), tagged(6, u64::MAX - 1));
    assert_eq!(LispVal::Int(i64::MIN).hash_code(), tagged(6, u64::MAX));
    assert_eq!(
        LispVal::Complex(lf(1.0), lf(-0.0)).hash_code(),
        tagged(7, mix(1.0f64.to_bits(), 0))
    );
    let h1 = LispVal::Int(1).hash_code();
    let h2 = LispVal::Int(2).hash_code();
    assert_eq!(one_two().hash_code(), tagged(8, mix(mix(seed, h1), h2)));
    assert_eq!(LispVal::List(List::new()).hash_code(), tagged(8, seed));
    assert_eq!(
        LispVal::Vector(vec![LispVal::Int(1), LispVal::Int(2)]).hash_code(),
        tagged(9, mix(mix(seed, h1), h2))
    );
    let mut m = LispMap::new();
    m.insert("a".to_string(), LispVal::Int(1));
    m.insert("b".to_string(), LispVal::Int(2));
    assert_eq!(
        LispVal::MapVal(m).hash_code(),
        tagged(10, mix(text("a"), h1).wrapping_add(mix(text("b"), h2)))
    );
    assert_eq!(
        LispVal::SetVal(set_of(vec![LispVal::Int(2), LispVal::Int(1)])).hash_code(),
        tagged(11, h1.wrapping_add(h2))
    );
    let p = Procedure::new(
        "f".to_string(),
        list_of(vec![LispVal::Int(1)]),
        list_of(vec![LispVal::Int(2), LispVal::Int(1)]),
    );
    assert_eq!(
        LispVal::Proc(p).hash_code(),
        tagged(12, mix(mix(text("f"), mix(seed, h1)), mix(mix(seed, h2), h1)))
    );
}

#[test]
fn a_clone_is_equal_to_its_source() {
    let mut m = LispMap::new();
    m.insert("k".to_string(), LispVal::Vector(vec![one_two(), LispVal::Float(lf(f64::NAN))]));
    let all = vec![
        LispVal::Nil,
        LispVal::Bool(true),
        LispVal::Str("s".to_string()),
        sym("s"),
        LispVal::Keyword("s".to_string()),
        LispVal::Float(lf(-0.0)),
        LispVal::Int(-5),
        LispVal::Complex(lf(1.0), lf(2.0)),
        one_two(),
        LispVal::Vector(vec![one_two(), LispVal::Nil]),
        LispVal::MapVal(m),
        LispVal::SetVal(set_of(vec![one_two(), LispVal::Int(1)])),
        LispVal::Proc(Procedure::new("f".to_string(), list_of(vec![sym("a")]), List::new())),
    ];
    for v in &all {
        let c = v.clone();
        assert_eq!(&c, v);
        assert_eq!(c.hash_code(), v.hash_code());
        assert_eq!(c.to_text(), v.to_text());
    }
}

#[test]
fn a_clone_keeps_the_bits_of_a_float() {
    let v = LispVal::Float(lf(-0.0));
    match v.clone() {
        LispVal::Float(x) => assert_eq!(x.0, (-0.0f64).to_bits()),
        _ => panic!("a clone of a float is a float"),
    }
}

#[test]
fn a_clone_of_a_set_or_a_map_stands_alone() {
    let mut s = set_of(vec![LispVal::Int(1)]);
    let c = s.clone();
    s.insert(LispVal::Int(2));
    assert_eq!(s.len(), 2);
    assert_eq!(c.len(), 1);
    let mut m = LispMap::new();
    m.insert("a".to_string(), LispVal::Int(1));
    let n = m.clone();
    m.insert("a".to_string(), LispVal::Int(2));
    assert_eq!(m.get("a"), Some(&LispVal::Int(2)));
    assert_eq!(n.get("a"), Some(&LispVal::Int(1)));
    let p = Procedure::new("f".to_string(), list_of(vec![sym("a")]), List::new());
    let q = p.clone();
    assert_eq!(q.name(), "f");
    assert_eq!(q.params(), p.params());
}

#[test]
fn after_insert_the_set_contains_the_value() {
    let mut s = LispSet::new();
    s.insert(one_two());
    assert!(s.contains(&one_two()));
    s.insert(one_two());
    assert!(s.contains(&one_two()));
    assert_eq!(s.members(), &vec![one_two()]);
}

#[test]
fn being_the_same_is_an_equivalence_on_samples() {
    let make = || {
        vec![
            LispVal::Float(lf(f64::NAN)),
            LispVal::Float(lf(-f64::NAN)),
            LispVal::Float(lf(0.0)),
            LispVal::Float(lf(-0.0)),
            LispVal::SetVal(set_of(vec![LispVal::Int(1), LispVal::Int(2)])),
            LispVal::SetVal(set_of(vec![LispVal::Int(2), LispVal::Int(1)])),
            LispVal::SetVal(set_of(vec![LispVal::Int(2)])),
            one_two(),
            LispVal::Vector(vec![LispVal::Int(1), LispVal::Int(2)]),
        ]
    };
    let (xs, ys, zs) = (make(), make(), make());
    for x in &xs {
        assert!(x == x);
        for y in &ys {
            assert_eq!(x == y, y == x);
            if x == y {
                assert_eq!(x.hash_code(), y.hash_code());
            }
            for z in &zs {
                if x == y && y == z {
                    assert!(x == z);
                }
            }
        }
    }
}
