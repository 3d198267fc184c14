use vstd::prelude::*;

verus! {

/// The declared type of a field, a parameter or a return value.
#[derive(Clone, Copy, Debug, PartialEq, Eq, Structural)]
pub enum TypeTag {
    Unit,
    Bool,
    I32,
    U32,
    I64,
    U64,
    /// A 32-bit float, carried as its bit pattern.
    F32,
    /// A 64-bit float, carried as its bit pattern.
    F64,
    /// A struct of the module, by its index in the module's type table.
    Struct(usize),
}

/// A transient reference to a struct instance of the module. It is usable only
/// while the epoch it was issued in is the session's current epoch, and it means
/// something only to the session that issued it: a handle carries no session
/// identity, so another session with a matching table would accept it.
#[derive(Clone, Copy, Debug, PartialEq, Eq, Structural)]
pub struct StructHandle {
    pub instance: usize,
    pub ty: usize,
    pub epoch: u64,
}

/// A value crossing the bridge. Floats travel as their bit patterns.
#[derive(Clone, Copy, Debug, PartialEq, Eq, Structural)]
pub enum Value {
    Unit,
    Bool(bool),
    I32(i32),
    U32(u32),
    I64(i64),
    U64(u64),
    F32(u32),
    F64(u64),
    Struct(StructHandle),
}

#[derive(Clone, Copy, Debug, PartialEq, Eq, Structural)]
pub enum BridgeError {
    UnknownField,
    UnknownFunction,
    TypeMismatch,
    ArityMismatch,
    StaleHandle,
    LoadError,
    LinkError,
    ModuleFault,
}

/// A named field of a struct type.
#[derive(Clone, Debug)]
pub struct FieldDecl {
    pub name: String,
    pub tag: TypeTag,
}

/// The layout of one struct type: its name and ordered fields.
#[derive(Clone, Debug)]
pub struct StructType {
    pub name: String,
    pub fields: Vec<FieldDecl>,
}

/// The signature of a function exported by the module.
#[derive(Clone, Debug)]
pub struct FnSig {
    pub name: String,
    pub params: Vec<TypeTag>,
    pub ret: TypeTag,
}

/// A compiled module: its struct types, its exported functions, and the host
/// functions that it calls.
#[derive(Clone, Debug)]
pub struct Module {
    pub types: Vec<StructType>,
    pub exports: Vec<FnSig>,
    pub imports: Vec<FnSig>,
}

/// The type tag that a value carries.
pub open spec fn tag_of(v: Value) -> TypeTag {
    match v {
        Value::Unit => TypeTag::Unit,
        Value::Bool(_) => TypeTag::Bool,
        Value::I32(_) => TypeTag::I32,
        Value::U32(_) => TypeTag::U32,
        Value::I64(_) => TypeTag::I64,
        Value::U64(_) => TypeTag::U64,
        Value::F32(_) => TypeTag::F32,
        Value::F64(_) => TypeTag::F64,
        Value::Struct(h) => TypeTag::Struct(h.ty),
    }
}

impl Value {
    pub fn tag(&self) -> (r: TypeTag)
        ensures
            r == tag_of(*self),
    {
        match self {
            Value::Unit => TypeTag::Unit,
            Value::Bool(_) => TypeTag::Bool,
            Value::I32(_) => TypeTag::I32,
            Value::U32(_) => TypeTag::U32,
            Value::I64(_) => TypeTag::I64,
            Value::U64(_) => TypeTag::U64,
            Value::F32(_) => TypeTag::F32,
            Value::F64(_) => TypeTag::F64,
            Value::Struct(h) => TypeTag::Struct(h.ty),
        }
    }
}

/// The tag of a primitive type of the module, by the name its type table gives it.
pub open spec fn primitive_tag(name: Seq<char>) -> Option<TypeTag> {
    if name == "core::empty"@ {
        Some(TypeTag::Unit)
    } else if name == "core::bool"@ {
        Some(TypeTag::Bool)
    } else if name == "core::i32"@ {
        Some(TypeTag::I32)
    } else if name == "core::u32"@ {
        Some(TypeTag::U32)
    } else if name == "core::i64"@ {
        Some(TypeTag::I64)
    } else if name == "core::u64"@ {
        Some(TypeTag::U64)
    } else if name == "core::f32"@ {
        Some(TypeTag::F32)
    } else if name == "core::f64"@ {
        Some(TypeTag::F64)
    } else {
        None
    }
}

/// The tag of the type named `name`: a primitive, or the struct at its place in
/// `struct_names`.
pub open spec fn tag_of_name(struct_names: Seq<Seq<char>>, name: Seq<char>) -> Option<TypeTag> {
    match primitive_tag(name) {
        Some(t) => Some(t),
        None => match first_index(struct_names, name) {
            Some(i) => Some(TypeTag::Struct(i as usize)),
            None => None,
        },
    }
}

fn same_text(a: &str, b: &str) -> (r: bool)
    ensures
        r == (a@ == b@),
{
    a.to_owned() == b.to_owned()
}

fn primitive_tag_exec(name: &str) -> (r: Option<TypeTag>)
    ensures
        r == primitive_tag(name@),
{
    if same_text(name, "core::empty") {
        Some(TypeTag::Unit)
    } else if same_text(name, "core::bool") {
        Some(TypeTag::Bool)
    } else if same_text(name, "core::i32") {
        Some(TypeTag::I32)
    } else if same_text(name, "core::u32") {
        Some(TypeTag::U32)
    } else if same_text(name, "core::i64") {
        Some(TypeTag::I64)
    } else if same_text(name, "core::u64") {
        Some(TypeTag::U64)
    } else if same_text(name, "core::f32") {
        Some(TypeTag::F32)
    } else if same_text(name, "core::f64") {
        Some(TypeTag::F64)
    } else {
        None
    }
}

/// The first index of `names` that holds `name`, if any.
pub open spec fn first_index(names: Seq<Seq<char>>, name: Seq<char>) -> Option<int>
    decreases names.len(),
{
    if names.len() == 0 {
        None
    } else {
        match first_index(names.drop_last(), name) {
            Some(i) => Some(i),
            None => if names.last() == name {
                Some(names.len() - 1)
            } else {
                None
            },
        }
    }
}

pub proof fn lemma_first_index_bounds(names: Seq<Seq<char>>, name: Seq<char>)
    ensures
        first_index(names, name) matches Some(i) ==> 0 <= i < names.len() && names[i] == name,
    decreases names.len(),
{
    if names.len() > 0 {
        lemma_first_index_bounds(names.drop_last(), name);
    }
}

/// With no match among the first `i` names, the next one is either the first
/// match or extends the run without one.
pub proof fn lemma_first_index_step(names: Seq<Seq<char>>, name: Seq<char>, i: int)
    requires
        0 <= i < names.len(),
        first_index(names.subrange(0, i), name) is None,
    ensures
        names[i] == name ==> first_index(names, name) == Some(i),
        names[i] != name ==> first_index(names.subrange(0, i + 1), name) is None,
{
    assert(names.subrange(0, i + 1).drop_last() =~= names.subrange(0, i));
    if names[i] == name {
        lemma_prefix_extends(names, name, i);
    }
}

/// A match found in a prefix is the match of the whole sequence.
proof fn lemma_prefix_extends(names: Seq<Seq<char>>, name: Seq<char>, i: int)
    requires
        0 <= i < names.len(),
        first_index(names.subrange(0, i + 1), name) == Some(i),
    ensures
        first_index(names, name) == Some(i),
    decreases names.len(),
{
    if names.len() > i + 1 {
        assert(names.drop_last().subrange(0, i + 1) =~= names.subrange(0, i + 1));
        lemma_prefix_extends(names.drop_last(), name, i);
    } else {
        assert(names.subrange(0, i + 1) =~= names);
    }
}

/// Having gone through all names without a match, there is none.
pub proof fn lemma_first_index_none(names: Seq<Seq<char>>, name: Seq<char>)
    requires
        first_index(names.subrange(0, names.len() as int), name) is None,
    ensures
        first_index(names, name) is None,
{
    assert(names.subrange(0, names.len() as int) =~= names);
}

pub open spec fn field_names(fields: Seq<FieldDecl>) -> Seq<Seq<char>> {
    fields.map_values(|f: FieldDecl| f.name@)
}

pub open spec fn sig_names(sigs: Seq<FnSig>) -> Seq<Seq<char>> {
    sigs.map_values(|f: FnSig| f.name@)
}

pub open spec fn views_of(names: Seq<String>) -> Seq<Seq<char>> {
    names.map_values(|n: String| n@)
}

/// The first field of `fields` named `name`, if any.
pub open spec fn field_index(fields: Seq<FieldDecl>, name: Seq<char>) -> Option<int> {
    first_index(field_names(fields), name)
}

/// The first function of `sigs` named `name`, if any.
pub open spec fn export_index(sigs: Seq<FnSig>, name: Seq<char>) -> Option<int> {
    first_index(sig_names(sigs), name)
}

pub proof fn lemma_field_index_bounds(fields: Seq<FieldDecl>, name: Seq<char>)
    ensures
        field_index(fields, name) matches Some(i) ==> 0 <= i < fields.len() && fields[i].name@ == name,
{
    lemma_first_index_bounds(field_names(fields), name);
}

pub proof fn lemma_export_index_bounds(sigs: Seq<FnSig>, name: Seq<char>)
    ensures
        export_index(sigs, name) matches Some(i) ==> 0 <= i < sigs.len() && sigs[i].name@ == name,
{
    lemma_first_index_bounds(sig_names(sigs), name);
}

/// Looks a field up by name, returning the first match.
pub fn find_field(fields: &Vec<FieldDecl>, name: &str) -> (r: Option<usize>)
    ensures
        match r {
            Some(i) => field_index(fields@, name@) == Some(i as int),
            None => field_index(fields@, name@) is None,
        },
{
    let key = name.to_owned();
    let ghost names = field_names(fields@);
    let mut i: usize = 0;
    while i < fields.len()
        invariant
            i <= fields@.len(),
            key@ == name@,
            names == field_names(fields@),
            first_index(names.subrange(0, i as int), name@) is None,
        decreases fields@.len() - i,
    {
        proof {
            assert(names[i as int] == fields@[i as int].name@);
            lemma_first_index_step(names, name@, i as int);
        }
        if fields[i].name == key {
            return Some(i);
        }
        i = i + 1;
    }
    proof {
        lemma_first_index_none(names, name@);
    }
    None
}

/// Looks a function up by name, returning the first match.
pub fn find_export(sigs: &Vec<FnSig>, name: &str) -> (r: Option<usize>)
    ensures
        match r {
            Some(i) => export_index(sigs@, name@) == Some(i as int),
            None => export_index(sigs@, name@) is None,
        },
{
    let key = name.to_owned();
    let ghost names = sig_names(sigs@);
    let mut i: usize = 0;
    while i < sigs.len()
        invariant
            i <= sigs@.len(),
            key@ == name@,
            names == sig_names(sigs@),
            first_index(names.subrange(0, i as int), name@) is None,
        decreases sigs@.len() - i,
    {
        proof {
            assert(names[i as int] == sigs@[i as int].name@);
            lemma_first_index_step(names, name@, i as int);
        }
        if sigs[i].name == key {
            return Some(i);
        }
        i = i + 1;
    }
    proof {
        lemma_first_index_none(names, name@);
    }
    None
}

/// Maps a type name of the module's type table to a tag; struct types are
/// numbered by their place in `struct_names`.
pub fn tag_of_type_name(struct_names: &Vec<String>, name: &str) -> (r: Option<TypeTag>)
    ensures
        r == tag_of_name(views_of(struct_names@), name@),
{
    let p = primitive_tag_exec(name);
    if p.is_some() {
        return p;
    }
    let key = name.to_owned();
    let ghost names = views_of(struct_names@);
    let mut i: usize = 0;
    while i < struct_names.len()
        invariant
            i <= struct_names@.len(),
            key@ == name@,
            names == views_of(struct_names@),
            primitive_tag(name@) is None,
            first_index(names.subrange(0, i as int), name@) is None,
        decreases struct_names@.len() - i,
    {
        proof {
            assert(names[i as int] == struct_names@[i as int]@);
            lemma_first_index_step(names, name@, i as int);
        }
        if struct_names[i] == key {
            return Some(TypeTag::Struct(i));
        }
        i = i + 1;
    }
    proof {
        lemma_first_index_none(names, name@);
    }
    None
}

} // verus!
