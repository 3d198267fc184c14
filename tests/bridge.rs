use mun_bridge::marshal::marshal_vec2;
use mun_bridge::session::Session;
use mun_bridge::types::{
    tag_of_type_name, BridgeError, FieldDecl, FnSig, Module, StructHandle, StructType, TypeTag, Value,
};

fn field(name: &str, tag: TypeTag) -> FieldDecl {
    FieldDecl { name: name.to_string(), tag }
}

fn export(name: &str, params: Vec<TypeTag>, ret: TypeTag) -> FnSig {
    FnSig { name: name.to_string(), params, ret }
}

/// Counter { value: i32 } at 0, Vec2 { x: f32, y: f32 } at 1,
/// Paddle { pos: Vec2, move_up: bool, score: u32 } at 2.
fn counter_module() -> Module {
    Module {
        types: vec![
            StructType { name: "Counter".to_string(), fields: vec![field("value", TypeTag::I32)] },
            StructType {
                name: "Vec2".to_string(),
                fields: vec![field("x", TypeTag::F32), field("y", TypeTag::F32)],
            },
            StructType {
                name: "Paddle".to_string(),
                fields: vec![
                    field("pos", TypeTag::Struct(1)),
                    field("move_up", TypeTag::Bool),
                    field("score", TypeTag::U32),
                ],
            },
        ],
        exports: vec![
            export("new_counter", vec![], TypeTag::Struct(0)),
            export("increment", vec![TypeTag::Struct(0)], TypeTag::Unit),
            export("add", vec![TypeTag::I32, TypeTag::I32], TypeTag::I32),
        ],
        imports: vec![export("rand_f32", vec![], TypeTag::F32)],
    }
}

/// The host functions offered to the module.
fn natives() -> Vec<FnSig> {
    vec![
        export("log_i32", vec![TypeTag::I32], TypeTag::Unit),
        export("rand_f32", vec![], TypeTag::F32),
    ]
}

fn handle_of(v: Value) -> StructHandle {
    match v {
        Value::Struct(h) => h,
        other => panic!("not a struct: {:?}", other),
    }
}

/// Runs `new_counter` with the module's side played here.
fn call_new_counter(s: &mut Session) -> StructHandle {
    let call = s.invoke("new_counter", &vec![]).unwrap();
    let h = s.new_instance(0, &vec![Value::I32(0)]).unwrap();
    handle_of(s.complete(&call, Some(Value::Struct(h))).unwrap())
}

/// Runs `increment` with the module's side played here.
fn call_increment(s: &mut Session, c: StructHandle) {
    let call = s.invoke("increment", &vec![Value::Struct(c)]).unwrap();
    let arg = handle_of(call.args()[0]);
    let v = match s.get_field(&arg, "value", TypeTag::I32).unwrap() {
        Value::I32(v) => v,
        other => panic!("not an i32: {:?}", other),
    };
    s.set_field(&arg, "value", Value::I32(v + 1)).unwrap();
    assert_eq!(s.complete(&call, Some(Value::Unit)), Ok(Value::Unit));
}

fn new_paddle(s: &mut Session) -> StructHandle {
    let pos = s.new_instance(1, &vec![Value::F32(1.5f32.to_bits()), Value::F32((-2.0f32).to_bits())]).unwrap();
    s.new_instance(2, &vec![Value::Struct(pos), Value::Bool(false), Value::U32(0)]).unwrap()
}

#[test]
fn counter_incremented_three_times_through_root() {
    let mut s = Session::new(counter_module(), natives()).unwrap();
    let c = call_new_counter(&mut s);
    let rooted = s.root(&c).unwrap();
    for _ in 0..3 {
        let h = s.resolve(&rooted).unwrap();
        call_increment(&mut s, h);
    }
    let h = s.resolve(&rooted).unwrap();
    assert_eq!(s.get_field(&h, "value", TypeTag::I32), Ok(Value::I32(3)));
}

#[test]
fn reload_makes_transient_stale_and_keeps_root() {
    let mut s = Session::new(counter_module(), natives()).unwrap();
    let c = call_new_counter(&mut s);
    let rooted = s.root(&c).unwrap();
    for _ in 0..3 {
        let h = s.resolve(&rooted).unwrap();
        call_increment(&mut s, h);
    }
    let transient = s.resolve(&rooted).unwrap();
    s.request_reload(counter_module());
    assert!(s.reload_pending());
    assert_eq!(s.update(), Ok(true));
    assert!(!s.reload_pending());
    assert_eq!(s.get_field(&transient, "value", TypeTag::I32), Err(BridgeError::StaleHandle));
    assert_eq!(s.set_field(&transient, "value", Value::I32(9)), Err(BridgeError::StaleHandle));
    let h = s.resolve(&rooted).unwrap();
    assert_eq!(s.get_field(&h, "value", TypeTag::I32), Ok(Value::I32(3)));
}

#[test]
fn get_field_with_wrong_tag_is_type_mismatch() {
    let mut s = Session::new(counter_module(), natives()).unwrap();
    let c = call_new_counter(&mut s);
    s.set_field(&c, "value", Value::I32(7)).unwrap();
    assert_eq!(s.get_field(&c, "value", TypeTag::U32), Err(BridgeError::TypeMismatch));
    assert_eq!(s.get_field(&c, "value", TypeTag::Bool), Err(BridgeError::TypeMismatch));
    assert_eq!(s.get_field(&c, "value", TypeTag::I32), Ok(Value::I32(7)));
}

#[test]
fn set_then_get_round_trips() {
    let mut s = Session::new(counter_module(), natives()).unwrap();
    let p = new_paddle(&mut s);
    s.set_field(&p, "move_up", Value::Bool(true)).unwrap();
    assert_eq!(s.get_field(&p, "move_up", TypeTag::Bool), Ok(Value::Bool(true)));
    s.set_field(&p, "score", Value::U32(u32::MAX)).unwrap();
    assert_eq!(s.get_field(&p, "score", TypeTag::U32), Ok(Value::U32(u32::MAX)));
    let other = s.new_instance(1, &vec![Value::F32(0), Value::F32(0)]).unwrap();
    s.set_field(&p, "pos", Value::Struct(other)).unwrap();
    assert_eq!(s.get_field(&p, "pos", TypeTag::Struct(1)), Ok(Value::Struct(other)));
}

#[test]
fn set_field_errors() {
    let mut s = Session::new(counter_module(), natives()).unwrap();
    let p = new_paddle(&mut s);
    assert_eq!(s.set_field(&p, "speed", Value::U32(1)), Err(BridgeError::UnknownField));
    assert_eq!(s.set_field(&p, "score", Value::I32(1)), Err(BridgeError::TypeMismatch));
    let c = s.new_instance(0, &vec![Value::I32(0)]).unwrap();
    assert_eq!(s.set_field(&p, "pos", Value::Struct(c)), Err(BridgeError::TypeMismatch));
    assert_eq!(s.get_field(&p, "speed", TypeTag::U32), Err(BridgeError::UnknownField));
}

#[test]
fn struct_field_reads_alias_one_instance() {
    let mut s = Session::new(counter_module(), natives()).unwrap();
    let p = new_paddle(&mut s);
    let a = handle_of(s.get_field(&p, "pos", TypeTag::Struct(1)).unwrap());
    let b = handle_of(s.get_field(&p, "pos", TypeTag::Struct(1)).unwrap());
    assert_eq!(a, b);
    s.set_field(&a, "x", Value::F32(4.0f32.to_bits())).unwrap();
    assert_eq!(s.get_field(&b, "x", TypeTag::F32), Ok(Value::F32(4.0f32.to_bits())));
}

#[test]
fn struct_field_write_replaces_reference_only() {
    let mut s = Session::new(counter_module(), natives()).unwrap();
    let p = new_paddle(&mut s);
    let old_pos = handle_of(s.get_field(&p, "pos", TypeTag::Struct(1)).unwrap());
    let new_pos = s.new_instance(1, &vec![Value::F32(7), Value::F32(8)]).unwrap();
    s.set_field(&p, "pos", Value::Struct(new_pos)).unwrap();
    assert_eq!(s.get_field(&old_pos, "x", TypeTag::F32), Ok(Value::F32(1.5f32.to_bits())));
    assert_eq!(s.get_field(&new_pos, "x", TypeTag::F32), Ok(Value::F32(7)));
}

#[test]
fn unknown_function_fails_and_changes_nothing() {
    let mut s = Session::new(counter_module(), natives()).unwrap();
    let c = call_new_counter(&mut s);
    let epoch = s.epoch();
    let r = s.invoke("decrement", &vec![Value::Struct(c)]);
    assert_eq!(r.unwrap_err(), BridgeError::UnknownFunction);
    assert_eq!(s.epoch(), epoch);
    assert!(s.is_valid(&c));
    assert_eq!(s.get_field(&c, "value", TypeTag::I32), Ok(Value::I32(0)));
}

#[test]
fn invoke_checks_arity_and_types() {
    let mut s = Session::new(counter_module(), natives()).unwrap();
    assert_eq!(s.invoke("add", &vec![Value::I32(1)]).unwrap_err(), BridgeError::ArityMismatch);
    assert_eq!(s.invoke("add", &vec![Value::I32(1), Value::U32(2)]).unwrap_err(), BridgeError::TypeMismatch);
    let p = new_paddle(&mut s);
    assert_eq!(s.invoke("increment", &vec![Value::Struct(p)]).unwrap_err(), BridgeError::TypeMismatch);
    assert_eq!(s.epoch(), 0);
    let call = s.invoke("add", &vec![Value::I32(2), Value::I32(3)]).unwrap();
    assert_eq!(call.function(), 2);
    assert_eq!(call.args(), &vec![Value::I32(2), Value::I32(3)]);
    assert_eq!(s.epoch(), 1);
    assert_eq!(s.complete(&call, Some(Value::I32(5))), Ok(Value::I32(5)));
}

#[test]
fn transient_handle_is_stale_after_invoke() {
    let mut s = Session::new(counter_module(), natives()).unwrap();
    let c = call_new_counter(&mut s);
    let call = s.invoke("add", &vec![Value::I32(1), Value::I32(1)]).unwrap();
    s.complete(&call, Some(Value::I32(2))).unwrap();
    assert!(!s.is_valid(&c));
    assert_eq!(s.get_field(&c, "value", TypeTag::I32), Err(BridgeError::StaleHandle));
    assert_eq!(s.root(&c).unwrap_err(), BridgeError::StaleHandle);
    assert_eq!(s.invoke("increment", &vec![Value::Struct(c)]).unwrap_err(), BridgeError::StaleHandle);
}

#[test]
fn transient_handle_is_stale_after_update_without_reload() {
    let mut s = Session::new(counter_module(), natives()).unwrap();
    let c = call_new_counter(&mut s);
    assert_eq!(s.update(), Ok(false));
    assert_eq!(s.get_field(&c, "value", TypeTag::I32), Err(BridgeError::StaleHandle));
}

#[test]
fn rooted_handle_survives_many_mutations() {
    let mut s = Session::new(counter_module(), natives()).unwrap();
    let c = call_new_counter(&mut s);
    let rooted = s.root(&c).unwrap();
    for _ in 0..5 {
        assert_eq!(s.update(), Ok(false));
        let call = s.invoke("add", &vec![Value::I32(0), Value::I32(0)]).unwrap();
        s.complete(&call, Some(Value::I32(0))).unwrap();
        let h = s.resolve(&rooted).unwrap();
        assert!(s.is_valid(&h));
        assert_eq!(h.epoch, s.epoch());
    }
    assert_eq!(s.epoch(), 11);
}

#[test]
fn cloned_root_outlives_its_origin() {
    let mut s = Session::new(counter_module(), natives()).unwrap();
    let c = call_new_counter(&mut s);
    let first = s.root(&c).unwrap();
    let second = s.clone_root(&first).unwrap();
    assert_eq!(first, second);
    s.unroot(first).unwrap();
    let now = s.resolve(&second).unwrap();
    call_increment(&mut s, now);
    let h = s.resolve(&second).unwrap();
    assert_eq!(s.get_field(&h, "value", TypeTag::I32), Ok(Value::I32(1)));
    assert_eq!(s.unroot(second), Ok(()));
}

#[test]
fn each_root_takes_its_own_entry() {
    let mut s = Session::new(counter_module(), natives()).unwrap();
    let c = call_new_counter(&mut s);
    let a = s.root(&c).unwrap();
    let b = s.root(&c).unwrap();
    assert_eq!(a.slot(), 0);
    assert_eq!(b.slot(), 1);
    s.unroot(a).unwrap();
    assert_eq!(s.resolve(&b).unwrap().instance, c.instance);
}

#[test]
fn module_fault_ends_invocations() {
    let mut s = Session::new(counter_module(), natives()).unwrap();
    let call = s.invoke("add", &vec![Value::I32(1), Value::I32(2)]).unwrap();
    assert_eq!(s.complete(&call, None), Err(BridgeError::ModuleFault));
    assert!(s.is_faulted());
    assert_eq!(s.invoke("add", &vec![Value::I32(1), Value::I32(2)]).unwrap_err(), BridgeError::ModuleFault);
}

#[test]
fn result_breaking_signature_is_module_fault() {
    let mut s = Session::new(counter_module(), natives()).unwrap();
    let call = s.invoke("add", &vec![Value::I32(1), Value::I32(2)]).unwrap();
    assert_eq!(s.complete(&call, Some(Value::Bool(true))), Err(BridgeError::ModuleFault));
    assert!(s.is_faulted());
}

#[test]
fn completing_an_outdated_call_is_stale() {
    let mut s = Session::new(counter_module(), natives()).unwrap();
    let call = s.invoke("add", &vec![Value::I32(1), Value::I32(2)]).unwrap();
    assert_eq!(s.update(), Ok(false));
    assert_eq!(s.complete(&call, Some(Value::I32(3))), Err(BridgeError::StaleHandle));
    assert!(!s.is_faulted());
}

#[test]
fn load_rejects_unknown_struct_tag() {
    let mut m = counter_module();
    m.exports.push(export("broken", vec![TypeTag::Struct(9)], TypeTag::Unit));
    assert_eq!(Session::new(m, natives()).unwrap_err(), BridgeError::LoadError);
    let mut m = counter_module();
    m.types[0].fields.push(field("next", TypeTag::Struct(3)));
    assert_eq!(Session::new(m, natives()).unwrap_err(), BridgeError::LoadError);
}

#[test]
fn reload_carries_instances_to_new_layout() {
    let mut s = Session::new(counter_module(), natives()).unwrap();
    let c = call_new_counter(&mut s);
    let rooted = s.root(&c).unwrap();
    for _ in 0..3 {
        let h = s.resolve(&rooted).unwrap();
        call_increment(&mut s, h);
    }
    let mut m = counter_module();
    m.types[0].fields = vec![field("label", TypeTag::U32), field("value", TypeTag::I32), field("step", TypeTag::I64)];
    s.request_reload(m);
    assert_eq!(s.update(), Ok(true));
    let h = s.resolve(&rooted).unwrap();
    assert_eq!(s.get_field(&h, "value", TypeTag::I32), Ok(Value::I32(3)));
    assert_eq!(s.get_field(&h, "step", TypeTag::I64), Ok(Value::I64(0)));
    assert_eq!(s.get_field(&h, "label", TypeTag::U32), Ok(Value::U32(0)));
    call_increment(&mut s, h);
    let h = s.resolve(&rooted).unwrap();
    assert_eq!(s.get_field(&h, "value", TypeTag::I32), Ok(Value::I32(4)));
}

#[test]
fn reload_restarts_retyped_field_and_drops_removed_one() {
    let mut s = Session::new(counter_module(), natives()).unwrap();
    let p = new_paddle(&mut s);
    s.set_field(&p, "score", Value::U32(5)).unwrap();
    s.set_field(&p, "move_up", Value::Bool(true)).unwrap();
    let rooted = s.root(&p).unwrap();
    let mut m = counter_module();
    m.types[2].fields = vec![field("score", TypeTag::U64), field("pos", TypeTag::Struct(1))];
    s.request_reload(m);
    assert_eq!(s.update(), Ok(true));
    let h = s.resolve(&rooted).unwrap();
    assert_eq!(s.get_field(&h, "score", TypeTag::U64), Ok(Value::U64(0)));
    assert_eq!(s.get_field(&h, "move_up", TypeTag::Bool), Err(BridgeError::UnknownField));
    let pos = handle_of(s.get_field(&h, "pos", TypeTag::Struct(1)).unwrap());
    assert_eq!(marshal_vec2(&s, &pos), (1.5f32.to_bits(), (-2.0f32).to_bits()));
}

#[test]
fn reload_that_cannot_take_over_is_load_error_and_keeps_module() {
    let mut s = Session::new(counter_module(), natives()).unwrap();
    let c = call_new_counter(&mut s);
    let rooted = s.root(&c).unwrap();
    let mut m = counter_module();
    m.types[0].fields.push(field("next", TypeTag::Struct(0)));
    m.exports.clear();
    s.request_reload(m);
    assert_eq!(s.update(), Err(BridgeError::LoadError));
    assert!(!s.reload_pending());
    let mut m = counter_module();
    m.types.pop();
    s.request_reload(m);
    assert_eq!(s.update(), Err(BridgeError::LoadError));
    assert!(s.invoke("new_counter", &vec![]).is_ok());
    let h = s.resolve(&rooted).unwrap();
    assert_eq!(s.get_field(&h, "value", TypeTag::I32), Ok(Value::I32(0)));
}

#[test]
fn reload_may_add_types_and_struct_fields_to_them() {
    let mut s = Session::new(counter_module(), natives()).unwrap();
    let mut m = counter_module();
    m.types.push(StructType { name: "Ball".to_string(), fields: vec![field("pos", TypeTag::Struct(1))] });
    s.request_reload(m);
    assert_eq!(s.update(), Ok(true));
    let pos = s.new_instance(1, &vec![Value::F32(0), Value::F32(0)]).unwrap();
    assert!(s.new_instance(3, &vec![Value::Struct(pos)]).is_ok());
}

#[test]
fn reload_replaces_exports() {
    let mut s = Session::new(counter_module(), natives()).unwrap();
    let mut m = counter_module();
    m.exports = vec![export("reset", vec![TypeTag::Struct(0)], TypeTag::Unit)];
    s.request_reload(m);
    assert_eq!(s.update(), Ok(true));
    assert_eq!(s.invoke("increment", &vec![]).unwrap_err(), BridgeError::UnknownFunction);
    let c = s.new_instance(0, &vec![Value::I32(4)]).unwrap();
    assert!(s.invoke("reset", &vec![Value::Struct(c)]).is_ok());
}

#[test]
fn new_instance_checks_values() {
    let mut s = Session::new(counter_module(), natives()).unwrap();
    assert_eq!(s.new_instance(0, &vec![]), Err(BridgeError::ArityMismatch));
    assert_eq!(s.new_instance(0, &vec![Value::U64(1)]), Err(BridgeError::TypeMismatch));
    assert_eq!(s.new_instance(5, &vec![]), Err(BridgeError::TypeMismatch));
    let h = s.new_instance(0, &vec![Value::I32(-4)]).unwrap();
    assert_eq!(h, StructHandle { instance: 0, ty: 0, epoch: 0 });
    assert_eq!(s.get_field(&h, "value", TypeTag::I32), Ok(Value::I32(-4)));
}

#[test]
fn marshal_vec2_reads_both_coordinates() {
    let mut s = Session::new(counter_module(), natives()).unwrap();
    let p = new_paddle(&mut s);
    let pos = handle_of(s.get_field(&p, "pos", TypeTag::Struct(1)).unwrap());
    assert_eq!(marshal_vec2(&s, &pos), (1.5f32.to_bits(), (-2.0f32).to_bits()));
    assert_eq!(f32::from_bits(marshal_vec2(&s, &pos).1), -2.0);
    s.set_field(&pos, "y", Value::F32(9.0f32.to_bits())).unwrap();
    assert_eq!(marshal_vec2(&s, &pos), (1.5f32.to_bits(), 9.0f32.to_bits()));
}

#[test]
fn vec2_shape_is_checked_through_field_tags() {
    let mut s = Session::new(counter_module(), natives()).unwrap();
    let p = new_paddle(&mut s);
    assert_eq!(s.field_tag(1, "x"), Some(TypeTag::F32));
    assert_eq!(s.field_tag(1, "y"), Some(TypeTag::F32));
    assert_eq!(s.field_tag(p.ty, "x"), None);
    assert_eq!(s.field_tag(0, "value"), Some(TypeTag::I32));
    assert_eq!(s.field_tag(9, "x"), None);
}

#[test]
fn value_tags() {
    assert_eq!(Value::Unit.tag(), TypeTag::Unit);
    assert_eq!(Value::F64(0).tag(), TypeTag::F64);
    assert_eq!(Value::Struct(StructHandle { instance: 3, ty: 2, epoch: 1 }).tag(), TypeTag::Struct(2));
}

#[test]
fn load_rejects_duplicate_field_names() {
    let mut m = counter_module();
    m.types[2].fields.push(field("score", TypeTag::I64));
    assert_eq!(Session::new(m, natives()).unwrap_err(), BridgeError::LoadError);
    let mut m = counter_module();
    m.types[1].fields.push(field("z", TypeTag::F32));
    assert!(Session::new(m, natives()).is_ok());
}

#[test]
fn type_names_map_to_tags() {
    let names = vec!["Counter".to_string(), "Vec2".to_string(), "Vec2".to_string()];
    assert_eq!(tag_of_type_name(&names, "core::i32"), Some(TypeTag::I32));
    assert_eq!(tag_of_type_name(&names, "core::f32"), Some(TypeTag::F32));
    assert_eq!(tag_of_type_name(&names, "core::empty"), Some(TypeTag::Unit));
    assert_eq!(tag_of_type_name(&names, "core::bool"), Some(TypeTag::Bool));
    assert_eq!(tag_of_type_name(&names, "core::u64"), Some(TypeTag::U64));
    assert_eq!(tag_of_type_name(&names, "Vec2"), Some(TypeTag::Struct(1)));
    assert_eq!(tag_of_type_name(&names, "Counter"), Some(TypeTag::Struct(0)));
    assert_eq!(tag_of_type_name(&names, "core::i8"), None);
    assert_eq!(tag_of_type_name(&names, "Ball"), None);
}

#[test]
fn insist_applies_pending_build_first() {
    let mut s = Session::new(counter_module(), natives()).unwrap();
    let mut m = counter_module();
    m.exports.push(export("double", vec![TypeTag::I32], TypeTag::I32));
    s.request_reload(m);
    assert_eq!(s.invoke("double", &vec![Value::I32(2)]).unwrap_err(), BridgeError::UnknownFunction);
    let call = s.invoke_insist("double", &vec![Value::I32(2)]).unwrap();
    assert_eq!(call.function(), 3);
    assert!(!s.reload_pending());
    assert_eq!(s.epoch(), 2);
    assert_eq!(s.complete(&call, Some(Value::I32(4))), Ok(Value::I32(4)));
}

#[test]
fn insist_reports_link_error() {
    let mut s = Session::new(counter_module(), natives()).unwrap();
    let mut m = counter_module();
    m.imports.push(export("play_sound", vec![], TypeTag::Unit));
    s.request_reload(m);
    assert_eq!(s.invoke_insist("add", &vec![Value::I32(1), Value::I32(1)]).unwrap_err(), BridgeError::LinkError);
    assert_eq!(s.epoch(), 1);
    assert!(s.invoke_insist("add", &vec![Value::I32(1), Value::I32(1)]).is_ok());
    assert_eq!(s.epoch(), 2);
}

#[test]
fn insist_makes_prior_transient_arguments_stale() {
    let mut s = Session::new(counter_module(), natives()).unwrap();
    let c = call_new_counter(&mut s);
    s.request_reload(counter_module());
    assert_eq!(s.invoke_insist("increment", &vec![Value::Struct(c)]).unwrap_err(), BridgeError::StaleHandle);
}

#[test]
fn load_links_imports_against_natives() {
    assert!(Session::new(counter_module(), natives()).is_ok());
    assert_eq!(Session::new(counter_module(), vec![]).unwrap_err(), BridgeError::LinkError);
    let wrong = vec![export("rand_f32", vec![], TypeTag::F64)];
    assert_eq!(Session::new(counter_module(), wrong).unwrap_err(), BridgeError::LinkError);
    let extra_param = vec![export("rand_f32", vec![TypeTag::U32], TypeTag::F32)];
    assert_eq!(Session::new(counter_module(), extra_param).unwrap_err(), BridgeError::LinkError);
    let mut m = counter_module();
    m.imports.clear();
    assert!(Session::new(m, vec![]).is_ok());
}

#[test]
fn load_error_comes_before_link_error() {
    let mut m = counter_module();
    m.exports.push(export("broken", vec![], TypeTag::Struct(7)));
    assert_eq!(Session::new(m, vec![]).unwrap_err(), BridgeError::LoadError);
}

#[test]
fn reload_with_unmet_import_is_link_error() {
    let mut s = Session::new(counter_module(), natives()).unwrap();
    let mut m = counter_module();
    m.imports.push(export("play_sound", vec![TypeTag::U32], TypeTag::Unit));
    m.exports.clear();
    s.request_reload(m);
    assert_eq!(s.update(), Err(BridgeError::LinkError));
    assert!(s.invoke("add", &vec![Value::I32(1), Value::I32(1)]).is_ok());
    let mut m = counter_module();
    m.imports.push(export("log_i32", vec![TypeTag::I32], TypeTag::Unit));
    s.request_reload(m);
    assert_eq!(s.update(), Ok(true));
}
