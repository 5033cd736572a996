use algorithm_j::{
    generalize, infer, instantiate, occurs, parse, unify, MonoType, PolyType, TypeContext,
    TypeError,
};

fn type_of(src: &str) -> Result<String, TypeError> {
    let e = parse(src).unwrap();
    let mut ctx = TypeContext::new();
    infer(&mut ctx, &e).map(|t| t.to_string())
}

fn func(l: MonoType, r: MonoType) -> MonoType {
    MonoType::Func { l: Box::new(l), r: Box::new(r) }
}

#[test]
fn identity_is_polymorphic() {
    assert_eq!(type_of(r"\x. x").unwrap(), "'a -> 'a");
}

#[test]
fn twice_has_parenthesised_argument() {
    assert_eq!(type_of(r"\f. \x. f (f x)").unwrap(), "('a -> 'a) -> 'a -> 'a");
}

#[test]
fn applied_identity_is_bool() {
    assert_eq!(type_of(r"(\x. x) true").unwrap(), "Bool");
}

#[test]
fn let_bound_identity_applied() {
    assert_eq!(type_of(r"let id = \x. x in id true").unwrap(), "Bool");
}

#[test]
fn let_bound_identity_used_twice() {
    assert_eq!(type_of(r"let id = \x. x in id id").unwrap(), "'a -> 'a");
}

#[test]
fn self_application_is_recursive() {
    assert_eq!(type_of(r"\x. x x"), Err(TypeError::RecursiveType));
}

#[test]
fn applying_a_bool_is_a_mismatch() {
    match type_of("true true") {
        Err(TypeError::TypeMismatch(a, b)) => {
            assert_eq!(a.to_string(), "Bool");
            assert_eq!(b.to_string(), "Bool -> 'a");
        }
        other => panic!("unexpected result {:?}", other),
    }
}

#[test]
fn unknown_variable() {
    assert_eq!(type_of("y"), Err(TypeError::VarNotFound("y".into())));
}

#[test]
fn const_function_has_two_variables() {
    assert_eq!(type_of(r"\x. \y. x").unwrap(), "'a -> 'b -> 'a");
}

#[test]
fn let_polymorphism_uses_at_two_types() {
    // id is applied to a function and to a bool in one body
    assert_eq!(type_of(r"let id = \x. x in (\y. id true) (id id)").unwrap(), "Bool");
    assert_eq!(
        type_of(r"let k = \x. \y. x in \z. k (k true z) (k z true)").unwrap(),
        "'a -> Bool"
    );
}

#[test]
fn lambda_bound_name_is_monomorphic() {
    // f is used at Bool and at a function type: one variable, so it fails
    match type_of(r"\f. (\a. f true) (f f)") {
        Err(TypeError::RecursiveType) | Err(TypeError::TypeMismatch(..)) => {}
        other => panic!("unexpected result {:?}", other),
    }
    // both uses of g unify with each other
    assert_eq!(type_of(r"\g. (\a. g) (g true)").unwrap(), "(Bool -> 'a) -> Bool -> 'a");
}

#[test]
fn printing_is_deterministic() {
    let src = r"let k = \x. \y. x in \f. \g. k (f g) g";
    let first = type_of(src).unwrap();
    for _ in 0..5 {
        assert_eq!(type_of(src).unwrap(), first);
    }
}

#[test]
fn unify_binds_and_agrees_after() {
    let mut ctx = TypeContext::new();
    let a = ctx.fresh_variable();
    let b = ctx.fresh_variable();
    let t0 = func(a.copy(), MonoType::Bool);
    let t1 = func(func(b.copy(), b.copy()), MonoType::Bool);
    assert_eq!(unify(&mut ctx, &t0, &t1), Ok(()));
    assert_eq!(ctx.resolve(&t0), ctx.resolve(&t1));
    assert_eq!(ctx.resolve(&a).to_string(), "'a -> 'a");
    // a second unification of the same pair succeeds and changes nothing
    let before = ctx.resolve(&t0);
    assert_eq!(unify(&mut ctx, &t0, &t1), Ok(()));
    assert_eq!(ctx.resolve(&t0), before);
}

#[test]
fn unify_mismatch_reports_both_sides() {
    let mut ctx = TypeContext::new();
    let t0 = func(MonoType::Bool, MonoType::Bool);
    assert_eq!(
        unify(&mut ctx, &MonoType::Bool, &t0),
        Err(TypeError::TypeMismatch(MonoType::Bool, func(MonoType::Bool, MonoType::Bool)))
    );
}

#[test]
fn occurs_check_fires_only_on_the_same_cell() {
    let mut ctx = TypeContext::new();
    let v = ctx.fresh_variable();
    let w = ctx.fresh_variable();
    let holds_v = func(MonoType::Bool, v.copy());
    assert!(occurs(&ctx, 0, &holds_v));
    assert_eq!(unify(&mut ctx, &v, &holds_v), Err(TypeError::RecursiveType));
    // through a bound variable
    let u = ctx.fresh_variable();
    assert_eq!(unify(&mut ctx, &w, &func(v.copy(), v.copy())), Ok(()));
    assert_eq!(unify(&mut ctx, &v, &func(w.copy(), MonoType::Bool)), Err(TypeError::RecursiveType));
    // a type without v binds it
    assert_eq!(unify(&mut ctx, &v, &func(u.copy(), MonoType::Bool)), Ok(()));
    // a variable unified with itself succeeds
    assert_eq!(unify(&mut ctx, &u, &u), Ok(()));
}

#[test]
fn instantiate_generalize_renames_to_fresh_variables() {
    let mut ctx = TypeContext::new();
    let a = ctx.fresh_variable();
    let b = ctx.fresh_variable();
    let t = func(a.copy(), func(b.copy(), a.copy()));
    let s = generalize(&ctx, &t);
    assert_eq!(s.tvar_ids, vec![0, 1, 0]);
    let i = instantiate(&mut ctx, &s);
    // three fresh cells 2, 3, 4; the last entry for 0 gives 4
    assert_eq!(i, func(MonoType::Var { tvar: 4 }, func(MonoType::Var { tvar: 3 }, MonoType::Var { tvar: 4 })));
    let j = instantiate(&mut ctx, &s);
    assert_eq!(j, func(MonoType::Var { tvar: 7 }, func(MonoType::Var { tvar: 6 }, MonoType::Var { tvar: 7 })));
}

#[test]
fn scheme_without_ids_instantiates_to_itself() {
    let mut ctx = TypeContext::new();
    let a = ctx.fresh_variable();
    let s = func(a.copy(), MonoType::Bool).as_poly();
    assert_eq!(instantiate(&mut ctx, &s), func(a.copy(), MonoType::Bool));
}

#[test]
fn many_variables_get_two_letter_names() {
    let mut t = MonoType::Bool;
    for id in (0..28).rev() {
        t = func(MonoType::Var { tvar: id }, t);
    }
    let text = t.to_string();
    assert!(text.starts_with("'a -> 'b -> "));
    assert!(text.ends_with("'z -> 'aa -> 'ab -> Bool"));
}

#[test]
fn variables_are_named_by_ascending_id() {
    let t = func(MonoType::Var { tvar: 9 }, MonoType::Var { tvar: 3 });
    assert_eq!(t.to_string(), "'b -> 'a");
}

#[test]
fn scheme_printing() {
    let s = PolyType {
        tvar_ids: vec![5, 2],
        typ: func(MonoType::Var { tvar: 2 }, MonoType::Var { tvar: 5 }),
    };
    assert_eq!(s.to_string(), "forall a, b. 'b -> 'a");
    let with_free = PolyType {
        tvar_ids: vec![4],
        typ: func(MonoType::Var { tvar: 1 }, func(MonoType::Var { tvar: 4 }, MonoType::Var { tvar: 0 })),
    };
    assert_eq!(with_free.to_string(), "forall a. 'c -> 'a -> 'b");
}

#[test]
fn symbols_are_scoped() {
    let mut ctx = TypeContext::new();
    ctx.insert_sym("x".into(), MonoType::Bool.as_poly());
    let v = ctx.fresh_variable();
    ctx.insert_sym("x".into(), v.copy().as_poly());
    assert_eq!(ctx.lookup_sym(&"x".to_string()).unwrap().typ, v);
    ctx.pop_sym();
    assert_eq!(ctx.lookup_sym(&"x".to_string()).unwrap().typ, MonoType::Bool);
    ctx.pop_sym();
    assert!(ctx.lookup_sym(&"x".to_string()).is_none());
}

#[test]
fn environment_is_restored_after_error() {
    let mut ctx = TypeContext::new();
    let e = parse(r"\x. y").unwrap();
    assert!(infer(&mut ctx, &e).is_err());
    assert!(ctx.lookup_sym(&"x".to_string()).is_none());
}

#[test]
fn printing_in_context_follows_bound_variables() {
    let mut ctx = TypeContext::new();
    let a = ctx.fresh_variable();
    let b = ctx.fresh_variable();
    assert_eq!(unify(&mut ctx, &a, &func(b.copy(), MonoType::Bool)), Ok(()));
    let t = func(a.copy(), b.copy());
    assert_eq!(ctx.type_to_string(&t), "('a -> Bool) -> 'a");
    assert_eq!(t.to_string(), "'a -> 'b");
}

#[test]
fn generalized_scheme_prints_in_scheme_order() {
    let mut ctx = TypeContext::new();
    let e = parse(r"\x. \y. x").unwrap();
    let t = infer(&mut ctx, &e).unwrap();
    let s = generalize(&ctx, &t);
    assert_eq!(s.to_string(), "forall a, b, c. 'a -> 'b -> 'a");
}

#[test]
fn each_let_use_gets_fresh_cells() {
    // two uses of k at different argument types in one body
    assert_eq!(type_of(r"let k = \x. \y. x in k (k true false) (k false (\z. z))").unwrap(), "Bool");
}

#[test]
fn lambda_uses_share_the_parameter() {
    assert_eq!(type_of(r"\x. x x"), Err(TypeError::RecursiveType));
    assert_eq!(type_of(r"\f. \x. f (f x)").unwrap(), "('a -> 'a) -> 'a -> 'a");
}
