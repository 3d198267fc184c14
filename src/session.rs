use vstd::prelude::*;
use crate::types::{
    BridgeError, FieldDecl, FnSig, Module, StructHandle, StructType, TypeTag, Value, tag_of,
    field_index, export_index, find_field, find_export, lemma_field_index_bounds,
    lemma_export_index_bounds,
};
use crate::layout::{
    check_imports, check_module, check_struct_fields_carried, check_unique_fields, fields_unique,
    imports_linked, module_wf, struct_fields_carried,
};

verus! {

/// Where a struct instance lives: its type and the first of its field slots.
#[derive(Clone, Copy, Debug, PartialEq, Eq, Structural)]
pub struct InstanceRec {
    pub ty: usize,
    pub base: usize,
}

/// An entry of the root set: the rooted instance and how many owners hold it.
#[derive(Clone, Copy, Debug, PartialEq, Eq, Structural)]
pub struct RootEntry {
    pub instance: usize,
    pub count: u64,
}

/// A claim on a root-set entry. It resolves to a current handle for as long as
/// the entry is held.
#[derive(Debug, PartialEq, Eq, Structural)]
pub struct RootedHandle {
    slot: usize,
}

impl RootedHandle {
    pub closed spec fn spec_slot(&self) -> usize {
        self.slot
    }

    pub fn slot(&self) -> (r: usize)
        ensures
            r == self.spec_slot(),
    {
        self.slot
    }
}

/// A checked call that the module is to run: the function and its arguments,
/// re-issued in the epoch that the call opened.
#[derive(Debug)]
pub struct Call {
    function: usize,
    args: Vec<Value>,
    epoch: u64,
}

/// What a `Call` is to the contracts.
pub struct CallView {
    pub function: usize,
    pub args: Seq<Value>,
    pub epoch: u64,
}

impl View for Call {
    type V = CallView;

    closed spec fn view(&self) -> CallView {
        CallView { function: self.function, args: self.args@, epoch: self.epoch }
    }
}

impl Call {
    pub fn function(&self) -> (r: usize)
        ensures
            r == self@.function,
    {
        self.function
    }

    pub fn args(&self) -> (r: &Vec<Value>)
        ensures
            r@ == self@.args,
    {
        &self.args
    }
}

/// The runtime session: the loaded module, the module's struct instances, the
/// root set and the epoch counter.
#[derive(Debug)]
pub struct Session {
    types: Vec<StructType>,
    exports: Vec<FnSig>,
    natives: Vec<FnSig>,
    instances: Vec<InstanceRec>,
    slots: Vec<Value>,
    roots: Vec<RootEntry>,
    epoch: u64,
    pending: Option<Module>,
    faulted: bool,
}

/// What a `Session` is to the contracts.
pub struct SessionView {
    pub types: Seq<StructType>,
    pub exports: Seq<FnSig>,
    pub natives: Seq<FnSig>,
    pub instances: Seq<InstanceRec>,
    pub slots: Seq<Value>,
    pub roots: Seq<RootEntry>,
    pub epoch: u64,
    pub pending: Option<Module>,
    pub faulted: bool,
}

impl View for Session {
    type V = SessionView;

    closed spec fn view(&self) -> SessionView {
        SessionView {
            types: self.types@,
            exports: self.exports@,
            natives: self.natives@,
            instances: self.instances@,
            slots: self.slots@,
            roots: self.roots@,
            epoch: self.epoch,
            pending: self.pending,
            faulted: self.faulted,
        }
    }
}

impl SessionView {
    pub open spec fn field_count(self, ty: usize) -> nat {
        self.types[ty as int].fields@.len()
    }

    /// The session's invariant.
    pub open spec fn wf(self) -> bool {
        &&& module_wf(self.types, self.exports)
        &&& forall|k: int|
            0 <= k < self.instances.len() ==> {
                &&& (#[trigger] self.instances[k]).ty < self.types.len()
                &&& self.instances[k].base + self.field_count(self.instances[k].ty)
                    <= self.slots.len()
            }
        &&& forall|s: int|
            0 <= s < self.slots.len() ==> (#[trigger] self.slots[s] matches Value::Struct(h)
                ==> self.refers(h))
        &&& forall|r: int|
            0 <= r < self.roots.len() ==> (#[trigger] self.roots[r]).instance
                < self.instances.len()
        &&& heap_typed(self.types, self.instances, self.slots)
    }

    /// `h` names an instance of this session with its true type, whatever its epoch.
    pub open spec fn refers(self, h: StructHandle) -> bool {
        h.instance < self.instances.len() && self.instances[h.instance as int].ty == h.ty
    }

    /// `h` may be used now: it refers to an instance and was issued in the current epoch.
    pub open spec fn valid_handle(self, h: StructHandle) -> bool {
        self.refers(h) && h.epoch == self.epoch
    }

    /// A value may cross the bridge now: a struct handle in it is valid.
    pub open spec fn usable(self, v: Value) -> bool {
        v matches Value::Struct(h) ==> self.valid_handle(h)
    }

    pub open spec fn fields_of(self, ty: usize) -> Seq<FieldDecl> {
        self.types[ty as int].fields@
    }

    /// The declared tag of field `name` of struct type `ty`, if both exist.
    pub open spec fn declared_tag(self, ty: usize, name: Seq<char>) -> Option<TypeTag> {
        if ty < self.types.len() {
            match field_index(self.fields_of(ty), name) {
                Some(i) => Some(self.fields_of(ty)[i].tag),
                None => None,
            }
        } else {
            None
        }
    }

    pub open spec fn slot_of(self, instance: usize, i: int) -> int {
        self.instances[instance as int].base + i
    }

    /// What `get_field` returns.
    pub open spec fn get_field(self, h: StructHandle, name: Seq<char>, tag: TypeTag) -> Result<
        Value,
        BridgeError,
    > {
        if !self.valid_handle(h) {
            Err(BridgeError::StaleHandle)
        } else {
            match field_index(self.fields_of(h.ty), name) {
                None => Err(BridgeError::UnknownField),
                Some(i) => if self.fields_of(h.ty)[i].tag != tag {
                    Err(BridgeError::TypeMismatch)
                } else {
                    Ok(restamp(self.slots[self.slot_of(h.instance, i)], self.epoch))
                },
            }
        }
    }

    /// The error of `set_field`, if any.
    pub open spec fn set_field_error(self, h: StructHandle, name: Seq<char>, v: Value) -> Option<
        BridgeError,
    > {
        if !self.valid_handle(h) {
            Some(BridgeError::StaleHandle)
        } else {
            match field_index(self.fields_of(h.ty), name) {
                None => Some(BridgeError::UnknownField),
                Some(i) => if !self.usable(v) {
                    Some(BridgeError::StaleHandle)
                } else if self.fields_of(h.ty)[i].tag != tag_of(v) {
                    Some(BridgeError::TypeMismatch)
                } else {
                    None
                },
            }
        }
    }

    /// The session after a successful `set_field`.
    pub open spec fn with_field(self, h: StructHandle, name: Seq<char>, v: Value) -> SessionView {
        let i = field_index(self.fields_of(h.ty), name)->Some_0;
        SessionView { slots: self.slots.update(self.slot_of(h.instance, i), v), ..self }
    }

    /// What `set_field` does: the error, or the new session.
    pub open spec fn set_field(self, h: StructHandle, name: Seq<char>, v: Value) -> Result<
        SessionView,
        BridgeError,
    > {
        match self.set_field_error(h, name, v) {
            Some(e) => Err(e),
            None => Ok(self.with_field(h, name, v)),
        }
    }

    /// The root-set entry behind `r` is held.
    pub open spec fn live(self, r: RootedHandle) -> bool {
        r.spec_slot() < self.roots.len() && self.roots[r.spec_slot() as int].count > 0
    }

    /// What `resolve` returns.
    pub open spec fn resolve(self, r: RootedHandle) -> Result<StructHandle, BridgeError> {
        if self.live(r) {
            let k = self.roots[r.spec_slot() as int].instance;
            Ok(StructHandle { instance: k, ty: self.instances[k as int].ty, epoch: self.epoch })
        } else {
            Err(BridgeError::StaleHandle)
        }
    }

    /// The error of the first of the first `n` values that does not fit its tag.
    pub open spec fn args_error(self, params: Seq<TypeTag>, args: Seq<Value>, n: nat) -> Option<
        BridgeError,
    >
        decreases n,
    {
        if n == 0 {
            None
        } else {
            match self.args_error(params, args, (n - 1) as nat) {
                Some(e) => Some(e),
                None => if !self.usable(args[n - 1]) {
                    Some(BridgeError::StaleHandle)
                } else if tag_of(args[n - 1]) != params[n - 1] {
                    Some(BridgeError::TypeMismatch)
                } else {
                    None
                },
            }
        }
    }

    /// The error of a list of values against a list of tags, if any.
    pub open spec fn list_error(self, params: Seq<TypeTag>, args: Seq<Value>) -> Option<
        BridgeError,
    > {
        if params.len() != args.len() {
            Some(BridgeError::ArityMismatch)
        } else {
            self.args_error(params, args, args.len())
        }
    }

    /// The error of `invoke`, if any.
    pub open spec fn invoke_error(self, name: Seq<char>, args: Seq<Value>) -> Option<BridgeError> {
        if self.faulted {
            Some(BridgeError::ModuleFault)
        } else {
            match export_index(self.exports, name) {
                None => Some(BridgeError::UnknownFunction),
                Some(f) => self.list_error(self.exports[f].params@, args),
            }
        }
    }

    /// The session with its epoch advanced by one.
    pub open spec fn advanced(self) -> SessionView {
        SessionView { epoch: (self.epoch + 1) as u64, ..self }
    }

    /// Between `self` and `next` the root set was kept, every existing instance
    /// kept its identity and type (its storage may have moved), and the epoch did
    /// not go back.
    pub open spec fn keeps_roots(self, next: SessionView) -> bool {
        &&& next.roots == self.roots
        &&& self.instances.len() <= next.instances.len()
        &&& forall|k: int|
            0 <= k < self.instances.len() ==> (#[trigger] next.instances[k]).ty == self.instances[k].ty
        &&& self.epoch <= next.epoch
    }
}


impl SessionView {
    /// `r` and `next` are what `invoke` of `name` on `args` gives from `self`: on an
    /// error nothing changes; else the epoch advances and the call holds the
    /// function's index and the arguments re-issued in the new epoch.
    pub open spec fn invoked(self, name: Seq<char>, args: Seq<Value>, r: Result<Call, BridgeError>, next: SessionView) -> bool {
        match self.invoke_error(name, args) {
            Some(e) => (r matches Err(e2) && e2 == e) && next == self,
            None => (r matches Ok(c) && next == self.advanced() && c@.epoch == next.epoch
                && export_index(self.exports, name) == Some(c@.function as int) && c@.args
                == args.map_values(|a: Value| restamp(a, next.epoch))),
        }
    }

    /// What `complete` returns.
    pub open spec fn complete_result(self, c: CallView, outcome: Option<Value>) -> Result<
        Value,
        BridgeError,
    > {
        if c.epoch != self.epoch || c.function >= self.exports.len() {
            Err(BridgeError::StaleHandle)
        } else {
            match outcome {
                None => Err(BridgeError::ModuleFault),
                Some(x) => if !self.usable(x) || tag_of(x) != self.exports[c.function as int].ret {
                    Err(BridgeError::ModuleFault)
                } else {
                    Ok(x)
                },
            }
        }
    }

    /// The error of `new_instance`, if any.
    pub open spec fn alloc_error(self, ty: usize, values: Seq<Value>) -> Option<BridgeError> {
        if ty >= self.types.len() {
            Some(BridgeError::TypeMismatch)
        } else {
            self.list_error(field_tags(self.fields_of(ty)), values)
        }
    }

    /// The session after a successful `new_instance`.
    pub open spec fn allocated(self, ty: usize, values: Seq<Value>) -> SessionView {
        SessionView {
            instances: self.instances.push(InstanceRec { ty, base: self.slots.len() as usize }),
            slots: self.slots + values,
            ..self
        }
    }

    /// A new build `m` can take the session's place: it is well formed, keeps
    /// every struct type by its place in the table, and has a value for each
    /// struct-typed field of those types.
    pub open spec fn accepts(self, m: Module) -> bool {
        &&& module_wf(m.types@, m.exports@)
        &&& fields_unique(m.types@)
        &&& self.types.len() <= m.types@.len()
        &&& struct_fields_carried(self.types, m.types@)
    }

    /// What `update` returns.
    pub open spec fn update_result(self) -> Result<bool, BridgeError> {
        match self.pending {
            None => Ok(false),
            Some(m) => if !self.accepts(m) {
                Err(BridgeError::LoadError)
            } else if !imports_linked(m.imports@, self.natives) {
                Err(BridgeError::LinkError)
            } else {
                Ok(true)
            },
        }
    }

    /// The session after an `update` that applied nothing: the epoch advanced and
    /// no build waits.
    pub open spec fn unchanged_update(self) -> SessionView {
        SessionView { pending: None, epoch: (self.epoch + 1) as u64, ..self }
    }

    /// What field `i` of instance `k` holds under the layout `nt`: the value of the
    /// field of that name and tag under the current layout, else the zero of its tag.
    pub open spec fn carried(self, nt: Seq<StructType>, k: int, i: int) -> Value {
        let ty = self.instances[k].ty;
        let f = nt[ty as int].fields@[i];
        match field_index(self.fields_of(ty), f.name@) {
            Some(j) => if self.fields_of(ty)[j].tag == f.tag {
                self.slots[self.instances[k].base + j]
            } else {
                zero_of(f.tag)
            },
            None => zero_of(f.tag),
        }
    }

    /// `next` is this session after applying build `m`: the module's tables are
    /// replaced, every instance keeps its identity and type and is laid out anew
    /// with its fields carried over, the root set is kept, and the epoch advances.
    pub open spec fn reloads_to(self, m: Module, next: SessionView) -> bool {
        &&& next.types == m.types@
        &&& next.exports == m.exports@
        &&& next.natives == self.natives
        &&& next.roots == self.roots
        &&& next.epoch == self.epoch + 1
        &&& next.pending is None
        &&& next.faulted == self.faulted
        &&& next.instances.len() == self.instances.len()
        &&& forall|k: int| 0 <= k < self.instances.len() ==> (#[trigger] next.instances[k]).ty == self.instances[k].ty
        &&& forall|k: int, i: int|
            0 <= k < self.instances.len() && 0 <= i < m.types@[self.instances[k].ty as int].fields@.len()
                ==> #[trigger] next.slots[next.instances[k].base + i] == self.carried(m.types@, k, i)
    }
}

/// With no error among the first `n` values, each of them is usable and fits its tag.
pub proof fn lemma_args_fit(v: SessionView, params: Seq<TypeTag>, args: Seq<Value>, n: nat)
    requires
        v.args_error(params, args, n) is None,
    ensures
        forall|k: int| 0 <= k < n ==> v.usable(#[trigger] args[k]) && tag_of(args[k]) == params[k],
    decreases n,
{
    if n > 0 {
        lemma_args_fit(v, params, args, (n - 1) as nat);
    }
}

/// The first error found among the first `n` values stays the first among more.
pub proof fn lemma_args_error_stays(v: SessionView, params: Seq<TypeTag>, args: Seq<Value>, n: nat, m: nat)
    requires
        n <= m,
        v.args_error(params, args, n) is Some,
    ensures
        v.args_error(params, args, m) == v.args_error(params, args, n),
    decreases m,
{
    if m > n {
        lemma_args_error_stays(v, params, args, n, (m - 1) as nat);
    }
}

/// The instances own disjoint runs of slots, in order, and each slot holds a value
/// of its field's declared tag.
pub open spec fn heap_typed(types: Seq<StructType>, instances: Seq<InstanceRec>, slots: Seq<Value>) -> bool {
    &&& forall|j: int, k: int|
        0 <= j < k < instances.len() ==> #[trigger] instances[j].base
            + types[instances[j].ty as int].fields@.len() <= #[trigger] instances[k].base
    &&& forall|k: int, i: int|
        0 <= k < instances.len() && 0 <= i < types[instances[k].ty as int].fields@.len() ==> tag_of(
            slots[instances[k].base + i],
        ) == (#[trigger] types[instances[k].ty as int].fields@[i]).tag
}

/// The value that a field added by a reload starts with. No struct-typed field is
/// ever started this way.
pub open spec fn zero_of(t: TypeTag) -> Value {
    match t {
        TypeTag::Bool => Value::Bool(false),
        TypeTag::I32 => Value::I32(0),
        TypeTag::U32 => Value::U32(0),
        TypeTag::I64 => Value::I64(0),
        TypeTag::U64 => Value::U64(0),
        TypeTag::F32 => Value::F32(0),
        TypeTag::F64 => Value::F64(0),
        _ => Value::Unit,
    }
}

fn zero_value(t: TypeTag) -> (r: Value)
    ensures
        r == zero_of(t),
        !(t is Struct) ==> tag_of(r) == t,
{
    match t {
        TypeTag::Bool => Value::Bool(false),
        TypeTag::I32 => Value::I32(0),
        TypeTag::U32 => Value::U32(0),
        TypeTag::I64 => Value::I64(0),
        TypeTag::U64 => Value::U64(0),
        TypeTag::F32 => Value::F32(0),
        TypeTag::F64 => Value::F64(0),
        _ => Value::Unit,
    }
}

/// A stored value as a read hands it out: a struct reference becomes a handle of
/// the current epoch.
pub open spec fn restamp(v: Value, epoch: u64) -> Value {
    match v {
        Value::Struct(h) => Value::Struct(StructHandle { epoch, ..h }),
        _ => v,
    }
}

pub open spec fn field_tags(fields: Seq<FieldDecl>) -> Seq<TypeTag> {
    fields.map_values(|f: FieldDecl| f.tag)
}

fn restamp_value(v: Value, epoch: u64) -> (r: Value)
    ensures
        r == restamp(v, epoch),
{
    match v {
        Value::Struct(h) => Value::Struct(StructHandle { instance: h.instance, ty: h.ty, epoch }),
        _ => v,
    }
}

impl Session {
    /// The epoch now current.
    pub fn epoch(&self) -> (r: u64)
        ensures
            r == self@.epoch,
    {
        self.epoch
    }

    /// A fault of the module has ended this session's invocations.
    pub fn is_faulted(&self) -> (r: bool)
        ensures
            r == self@.faulted,
    {
        self.faulted
    }

    /// The declared tag of field `name` of struct type `ty`, if both exist.
    pub fn field_tag(&self, ty: usize, name: &str) -> (r: Option<TypeTag>)
        ensures
            r == self@.declared_tag(ty, name@),
    {
        if ty >= self.types.len() {
            return None;
        }
        match find_field(&self.types[ty].fields, name) {
            None => None,
            Some(i) => {
                proof {
                    lemma_field_index_bounds(self@.fields_of(ty), name@);
                }
                Some(self.types[ty].fields[i].tag)
            },
        }
    }

    /// Whether `h` may be used now.
    pub fn is_valid(&self, h: &StructHandle) -> (r: bool)
        ensures
            r == self@.valid_handle(*h),
    {
        h.epoch == self.epoch && h.instance < self.instances.len() && self.instances[h.instance].ty
            == h.ty
    }

    fn is_usable(&self, v: &Value) -> (r: bool)
        ensures
            r == self@.usable(*v),
    {
        match v {
            Value::Struct(h) => self.is_valid(h),
            _ => true,
        }
    }

    /// Reads field `name` of the instance behind `h`, which must be declared with `tag`.
    /// A struct-typed field reads as a handle aliasing the nested instance.
    pub fn get_field(&self, h: &StructHandle, name: &str, tag: TypeTag) -> (r: Result<
        Value,
        BridgeError,
    >)
        requires
            self@.wf(),
        ensures
            r == self@.get_field(*h, name@, tag),
            r matches Ok(v) ==> tag_of(v) == tag,
    {
        if !self.is_valid(h) {
            return Err(BridgeError::StaleHandle);
        }
        let ty = h.ty;
        proof {
            assert(self@.instances[h.instance as int].ty == ty);
        }
        match find_field(&self.types[ty].fields, name) {
            None => Err(BridgeError::UnknownField),
            Some(i) => {
                proof {
                    lemma_field_index_bounds(self@.fields_of(ty), name@);
                    assert(self@.instances[h.instance as int].base + self@.field_count(ty)
                        <= self@.slots.len());
                    assert(self@.field_count(ty) == self.types[ty as int].fields@.len());
                }
                if self.types[ty].fields[i].tag != tag {
                    Err(BridgeError::TypeMismatch)
                } else {
                    let n = self.slots.len();
                    assert(self.instances[h.instance as int].base + i < n);
                    let s = self.instances[h.instance].base + i;
                    assert(self@.types[self@.instances[h.instance as int].ty as int].fields@[i as int].tag == tag);
                    Ok(restamp_value(self.slots[s], self.epoch))
                }
            },
        }
    }

    /// Writes `v` into field `name` of the instance behind `h`. A struct-typed field
    /// takes the reference that `v` holds; the instance it named is left as it was.
    pub fn set_field(&mut self, h: &StructHandle, name: &str, v: Value) -> (r: Result<
        (),
        BridgeError,
    >)
        requires
            old(self)@.wf(),
        ensures
            final(self)@.wf(),
            match old(self)@.set_field(*h, name@, v) {
                Ok(next) => r is Ok && final(self)@ == next,
                Err(e) => r == Err::<(), BridgeError>(e) && final(self)@ == old(self)@,
            },
    {
        if !self.is_valid(h) {
            return Err(BridgeError::StaleHandle);
        }
        let ty = h.ty;
        proof {
            assert(self@.instances[h.instance as int].ty == ty);
        }
        match find_field(&self.types[ty].fields, name) {
            None => Err(BridgeError::UnknownField),
            Some(i) => {
                proof {
                    lemma_field_index_bounds(self@.fields_of(ty), name@);
                    assert(self@.instances[h.instance as int].base + self@.field_count(ty)
                        <= self@.slots.len());
                    assert(self@.field_count(ty) == self.types[ty as int].fields@.len());
                }
                if !self.is_usable(&v) {
                    Err(BridgeError::StaleHandle)
                } else if self.types[ty].fields[i].tag != v.tag() {
                    Err(BridgeError::TypeMismatch)
                } else {
                    let n = self.slots.len();
                    assert(self.instances[h.instance as int].base + i < n);
                    let s = self.instances[h.instance].base + i;
                    self.slots.set(s, v);
                    proof {
                        assert(self@ == old(self)@.with_field(*h, name@, v));
                        assert forall|k: int| 0 <= k < self@.slots.len() implies (
                        #[trigger] self@.slots[k] matches Value::Struct(g) ==> self@.refers(g)) by {
                            if k != s {
                                assert(self@.slots[k] == old(self)@.slots[k]);
                            }
                        }
                    }
                    Ok(())
                }
            },
        }
    }

    /// Registers the instance behind `h` in the root set.
    pub fn root(&mut self, h: &StructHandle) -> (r: Result<RootedHandle, BridgeError>)
        requires
            old(self)@.wf(),
        ensures
            final(self)@.wf(),
            old(self)@.valid_handle(*h) ==> (r matches Ok(rh) && rh.spec_slot()
                == old(self)@.roots.len() && final(self)@ == (SessionView {
                roots: old(self)@.roots.push(RootEntry { instance: h.instance, count: 1 }),
                ..old(self)@
            })),
            !old(self)@.valid_handle(*h) ==> r == Err::<RootedHandle, BridgeError>(
                BridgeError::StaleHandle,
            ) && final(self)@ == old(self)@,
    {
        if !self.is_valid(h) {
            return Err(BridgeError::StaleHandle);
        }
        let slot = self.roots.len();
        self.roots.push(RootEntry { instance: h.instance, count: 1 });
        proof {
            assert(self@ =~= (SessionView {
                roots: old(self)@.roots.push(RootEntry { instance: h.instance, count: 1 }),
                ..old(self)@
            }));
            assert forall|k: int| 0 <= k < self@.roots.len() implies (
            #[trigger] self@.roots[k]).instance < self@.instances.len() by {
                if k < old(self)@.roots.len() {
                    assert(self@.roots[k] == old(self)@.roots[k]);
                }
            }
        }
        Ok(RootedHandle { slot })
    }

    /// A handle of the current epoch to the instance that `r` keeps alive.
    pub fn resolve(&self, r: &RootedHandle) -> (res: Result<StructHandle, BridgeError>)
        requires
            self@.wf(),
        ensures
            res == self@.resolve(*r),
    {
        if r.slot < self.roots.len() && self.roots[r.slot].count > 0 {
            let k = self.roots[r.slot].instance;
            Ok(StructHandle { instance: k, ty: self.instances[k].ty, epoch: self.epoch })
        } else {
            Err(BridgeError::StaleHandle)
        }
    }

    /// A second owner of the root-set entry behind `r`.
    pub fn clone_root(&mut self, r: &RootedHandle) -> (res: Result<RootedHandle, BridgeError>)
        requires
            old(self)@.wf(),
            old(self)@.live(*r) ==> old(self)@.roots[r.spec_slot() as int].count < u64::MAX,
        ensures
            final(self)@.wf(),
            old(self)@.live(*r) ==> (res matches Ok(c) && c == *r && final(self)@ == (SessionView {
                roots: old(self)@.roots.update(
                    r.spec_slot() as int,
                    RootEntry {
                        count: (old(self)@.roots[r.spec_slot() as int].count + 1) as u64,
                        ..old(self)@.roots[r.spec_slot() as int]
                    },
                ),
                ..old(self)@
            })),
            !old(self)@.live(*r) ==> res == Err::<RootedHandle, BridgeError>(
                BridgeError::StaleHandle,
            ) && final(self)@ == old(self)@,
    {
        if !(r.slot < self.roots.len() && self.roots[r.slot].count > 0) {
            return Err(BridgeError::StaleHandle);
        }
        let e = self.roots[r.slot];
        self.roots.set(r.slot, RootEntry { instance: e.instance, count: e.count + 1 });
        proof {
            assert forall|k: int| 0 <= k < self@.roots.len() implies (
            #[trigger] self@.roots[k]).instance < self@.instances.len() by {
                if k != r.slot {
                    assert(self@.roots[k] == old(self)@.roots[k]);
                }
            }
        }
        Ok(RootedHandle { slot: r.slot })
    }

    /// Gives up the claim `r`; the entry leaves the root set with its last owner.
    pub fn unroot(&mut self, r: RootedHandle) -> (res: Result<(), BridgeError>)
        requires
            old(self)@.wf(),
        ensures
            final(self)@.wf(),
            old(self)@.live(r) ==> res is Ok && final(self)@ == (SessionView {
                roots: old(self)@.roots.update(
                    r.spec_slot() as int,
                    RootEntry {
                        count: (old(self)@.roots[r.spec_slot() as int].count - 1) as u64,
                        ..old(self)@.roots[r.spec_slot() as int]
                    },
                ),
                ..old(self)@
            }),
            !old(self)@.live(r) ==> res == Err::<(), BridgeError>(BridgeError::StaleHandle)
                && final(self)@ == old(self)@,
    {
        if !(r.slot < self.roots.len() && self.roots[r.slot].count > 0) {
            return Err(BridgeError::StaleHandle);
        }
        let e = self.roots[r.slot];
        self.roots.set(r.slot, RootEntry { instance: e.instance, count: e.count - 1 });
        proof {
            assert forall|k: int| 0 <= k < self@.roots.len() implies (
            #[trigger] self@.roots[k]).instance < self@.instances.len() by {
                if k != r.slot {
                    assert(self@.roots[k] == old(self)@.roots[k]);
                }
            }
        }
        Ok(())
    }
}

impl Session {
    fn list_check(&self, params: &Vec<TypeTag>, args: &Vec<Value>) -> (r: Option<BridgeError>)
        ensures
            r == self@.list_error(params@, args@),
    {
        if params.len() != args.len() {
            return Some(BridgeError::ArityMismatch);
        }
        let mut i: usize = 0;
        while i < args.len()
            invariant
                i <= args@.len(),
                params@.len() == args@.len(),
                self@.args_error(params@, args@, i as nat) is None,
            decreases args@.len() - i,
        {
            if !self.is_usable(&args[i]) {
                proof {
                    lemma_args_error_stays(self@, params@, args@, i as nat + 1, args@.len());
                }
                return Some(BridgeError::StaleHandle);
            }
            if args[i].tag() != params[i] {
                proof {
                    lemma_args_error_stays(self@, params@, args@, i as nat + 1, args@.len());
                }
                return Some(BridgeError::TypeMismatch);
            }
            i = i + 1;
        }
        None
    }

    /// Checks a call of the exported function `name` on `args` and opens it: the
    /// epoch advances, and the returned `Call` holds the arguments re-issued in the
    /// new epoch for the module to run on. On any error nothing changes.
    pub fn invoke(&mut self, name: &str, args: &Vec<Value>) -> (r: Result<Call, BridgeError>)
        requires
            old(self)@.wf(),
            old(self)@.invoke_error(name@, args@) is None ==> old(self)@.epoch < u64::MAX,
        ensures
            final(self)@.wf(),
            old(self)@.invoked(name@, args@, r, final(self)@),
    {
        if self.faulted {
            return Err(BridgeError::ModuleFault);
        }
        let f = match find_export(&self.exports, name) {
            None => {
                return Err(BridgeError::UnknownFunction);
            },
            Some(f) => f,
        };
        proof {
            lemma_export_index_bounds(self@.exports, name@);
        }
        if let Some(e) = self.list_check(&self.exports[f].params, args) {
            return Err(e);
        }
        self.epoch = self.epoch + 1;
        let mut out: Vec<Value> = Vec::new();
        let mut i: usize = 0;
        while i < args.len()
            invariant
                i <= args@.len(),
                out@.len() == i,
                forall|k: int| 0 <= k < i ==> out@[k] == restamp(#[trigger] args@[k], self.epoch),
            decreases args@.len() - i,
        {
            out.push(restamp_value(args[i], self.epoch));
            i = i + 1;
        }
        assert(out@ =~= args@.map_values(|a: Value| restamp(a, self.epoch)));
        assert(self@ == old(self)@.advanced());
        Ok(Call { function: f, args: out, epoch: self.epoch })
    }

    /// Takes back what the module returned from `call`: `None` when it signalled a
    /// fault. A fault, or a result that breaks the function's signature, ends the
    /// session's invocations for good; a result that fits comes back as it is.
    pub fn complete(&mut self, call: &Call, outcome: Option<Value>) -> (r: Result<Value, BridgeError>)
        requires
            old(self)@.wf(),
        ensures
            final(self)@.wf(),
            r == old(self)@.complete_result(call@, outcome),
            r == Err::<Value, BridgeError>(BridgeError::ModuleFault) ==> final(self)@ == (SessionView {
                faulted: true,
                ..old(self)@
            }),
            r != Err::<Value, BridgeError>(BridgeError::ModuleFault) ==> final(self)@ == old(self)@,
    {
        if call.epoch != self.epoch || call.function >= self.exports.len() {
            return Err(BridgeError::StaleHandle);
        }
        match outcome {
            None => {
                self.faulted = true;
                Err(BridgeError::ModuleFault)
            },
            Some(x) => {
                if !self.is_usable(&x) || x.tag() != self.exports[call.function].ret {
                    self.faulted = true;
                    Err(BridgeError::ModuleFault)
                } else {
                    Ok(x)
                }
            },
        }
    }

    /// Creates an instance of struct type `ty` with the field values `values`, in
    /// declaration order. This is how module code brings a new instance about.
    pub fn new_instance(&mut self, ty: usize, values: &Vec<Value>) -> (r: Result<StructHandle, BridgeError>)
        requires
            old(self)@.wf(),
        ensures
            final(self)@.wf(),
            match old(self)@.alloc_error(ty, values@) {
                Some(e) => r == Err::<StructHandle, BridgeError>(e) && final(self)@ == old(self)@,
                None => r == Ok::<StructHandle, BridgeError>(
                    StructHandle { instance: old(self)@.instances.len() as usize, ty, epoch: old(self)@.epoch },
                ) && final(self)@ == old(self)@.allocated(ty, values@),
            },
    {
        if ty >= self.types.len() {
            return Err(BridgeError::TypeMismatch);
        }
        let mut tags: Vec<TypeTag> = Vec::new();
        let mut j: usize = 0;
        while j < self.types[ty].fields.len()
            invariant
                ty < self.types@.len(),
                j <= self.types@[ty as int].fields@.len(),
                tags@.len() == j,
                forall|k: int| 0 <= k < j ==> tags@[k] == (#[trigger] self.types@[ty as int].fields@[k]).tag,
            decreases self.types@[ty as int].fields@.len() - j,
        {
            tags.push(self.types[ty].fields[j].tag);
            j = j + 1;
        }
        assert(tags@ =~= field_tags(self@.fields_of(ty)));
        if let Some(e) = self.list_check(&tags, values) {
            return Err(e);
        }
        proof {
            lemma_args_fit(self@, tags@, values@, values@.len());
        }
        let instance = self.instances.len();
        let base = self.slots.len();
        let ghost before = self@;
        let mut i: usize = 0;
        while i < values.len()
            invariant
                before.wf(),
                i <= values@.len(),
                self@ == (SessionView { slots: before.slots + values@.subrange(0, i as int), ..before }),
                base == before.slots.len(),
                forall|k: int| 0 <= k < values@.len() ==> before.usable(#[trigger] values@[k]),
            decreases values@.len() - i,
        {
            self.slots.push(values[i]);
            assert(before.slots + values@.subrange(0, i as int + 1) =~= (before.slots + values@.subrange(0, i as int)).push(values@[i as int]));
            i = i + 1;
        }
        assert(values@.subrange(0, values@.len() as int) =~= values@);
        self.instances.push(InstanceRec { ty, base });
        proof {
            let now = self@;
            assert(now == before.allocated(ty, values@));
            assert forall|s: int| 0 <= s < now.slots.len() implies (#[trigger] now.slots[s] matches Value::Struct(g) ==> now.refers(g)) by {
                if s < before.slots.len() {
                    assert(now.slots[s] == before.slots[s]);
                    if let Value::Struct(g) = now.slots[s] {
                        assert(before.refers(g));
                        assert(now.instances[g.instance as int] == before.instances[g.instance as int]);
                    }
                } else {
                    assert(now.slots[s] == values@[s - before.slots.len()]);
                    if let Value::Struct(g) = now.slots[s] {
                        assert(before.usable(values@[s - before.slots.len()]));
                        assert(now.instances[g.instance as int] == before.instances[g.instance as int]);
                    }
                }
            }
            assert forall|k: int| 0 <= k < now.instances.len() implies {
                &&& (#[trigger] now.instances[k]).ty < now.types.len()
                &&& now.instances[k].base + now.field_count(now.instances[k].ty) <= now.slots.len()
            } by {
                if k < before.instances.len() {
                    assert(now.instances[k] == before.instances[k]);
                }
            }
            assert forall|q: int| 0 <= q < now.roots.len() implies (#[trigger] now.roots[q]).instance < now.instances.len() by {
                assert(now.roots[q] == before.roots[q]);
            }
        }
        Ok(StructHandle { instance, ty, epoch: self.epoch })
    }
}

/// A module can be loaded.
pub open spec fn loadable(m: Module) -> bool {
    module_wf(m.types@, m.exports@) && fields_unique(m.types@)
}

/// The session that a freshly loaded module `m` starts as, beside the host's
/// native functions `natives`.
pub open spec fn fresh_session(m: Module, natives: Seq<FnSig>) -> SessionView {
    SessionView {
        types: m.types@,
        exports: m.exports@,
        natives,
        instances: Seq::empty(),
        slots: Seq::empty(),
        roots: Seq::empty(),
        epoch: 0,
        pending: None,
        faulted: false,
    }
}

impl Session {
    /// Loads `module` beside the host's native functions `natives`. Every tag in
    /// the module must name one of its own struct types, and no struct type may
    /// declare two fields of one name, else loading fails with `LoadError`; each
    /// import must be met by the first native of its name with the same signature,
    /// else it fails with `LinkError`.
    pub fn new(module: Module, natives: Vec<FnSig>) -> (r: Result<Session, BridgeError>)
        ensures
            !loadable(module) ==> (r matches Err(e) && e == BridgeError::LoadError),
            loadable(module) && !imports_linked(module.imports@, natives@) ==> (r matches Err(e)
                && e == BridgeError::LinkError),
            loadable(module) && imports_linked(module.imports@, natives@) ==> (r matches Ok(s)
                && s@ == fresh_session(module, natives@) && s@.wf()),
    {
        if !check_module(&module.types, &module.exports) || !check_unique_fields(&module.types) {
            return Err(BridgeError::LoadError);
        }
        if !check_imports(&module.imports, &natives) {
            return Err(BridgeError::LinkError);
        }
        let Module { types, exports, imports: _ } = module;
        let s = Session {
            types,
            exports,
            natives,
            instances: Vec::new(),
            slots: Vec::new(),
            roots: Vec::new(),
            epoch: 0,
            pending: None,
            faulted: false,
        };
        assert(s@ =~= fresh_session(module, natives@));
        Ok(s)
    }

    /// Announces a new build of the module; `update` applies it.
    pub fn request_reload(&mut self, module: Module)
        requires
            old(self)@.wf(),
        ensures
            final(self)@.wf(),
            final(self)@ == (SessionView { pending: Some(module), ..old(self)@ }),
    {
        self.pending = Some(module);
    }

    /// Whether a new build waits to be applied.
    pub fn reload_pending(&self) -> (r: bool)
        ensures
            r == self@.pending is Some,
    {
        self.pending.is_some()
    }

    /// The pump of the reload cycle. The epoch advances, and a pending build is
    /// applied (`Ok(true)`): the module's tables are replaced and every instance is
    /// carried over to its type's new layout, keeping the fields whose name and tag
    /// stay, starting new ones at zero, and keeping the root set. A build that
    /// cannot take the session's place is dropped with `LoadError`, one whose
    /// imports the host's natives do not meet with `LinkError`; either way the
    /// current build stays whole. `Ok(false)`: nothing was pending.
    pub fn update(&mut self) -> (r: Result<bool, BridgeError>)
        requires
            old(self)@.wf(),
            old(self)@.epoch < u64::MAX,
        ensures
            final(self)@.wf(),
            r == old(self)@.update_result(),
            r == Ok::<bool, BridgeError>(true) ==> old(self)@.reloads_to(
                old(self)@.pending->Some_0,
                final(self)@,
            ),
            r != Ok::<bool, BridgeError>(true) ==> final(self)@ == old(self)@.unchanged_update(),
    {
        self.epoch = self.epoch + 1;
        let m = match self.pending.take() {
            None => {
                assert(self@ =~= old(self)@.unchanged_update());
                return Ok(false);
            },
            Some(m) => m,
        };
        assert(self@ =~= old(self)@.unchanged_update());
        if !(check_module(&m.types, &m.exports) && check_unique_fields(&m.types) && self.types.len()
            <= m.types.len() && check_struct_fields_carried(&self.types, &m.types)) {
            return Err(BridgeError::LoadError);
        }
        if !check_imports(&m.imports, &self.natives) {
            return Err(BridgeError::LinkError);
        }
        let ghost pre = old(self)@;
        let ghost nt = m.types@;
        let mut new_inst: Vec<InstanceRec> = Vec::new();
        let mut new_slots: Vec<Value> = Vec::new();
        let mut k: usize = 0;
        while k < self.instances.len()
            invariant
                pre.wf(),
                pre.accepts(m),
                nt == m.types@,
                self@ == pre.unchanged_update(),
                k <= pre.instances.len(),
                new_inst@.len() == k,
                forall|j: int| 0 <= j < k ==> (#[trigger] new_inst@[j]).ty == pre.instances[j].ty,
                forall|j: int|
                    0 <= j < k ==> (#[trigger] new_inst@[j]).base + nt[new_inst@[j].ty as int].fields@.len()
                        <= new_slots@.len(),
                forall|j1: int, j2: int|
                    0 <= j1 < j2 < k ==> #[trigger] new_inst@[j1].base + nt[new_inst@[j1].ty as int].fields@.len()
                        <= #[trigger] new_inst@[j2].base,
                forall|j: int, i: int|
                    0 <= j < k && 0 <= i < nt[pre.instances[j].ty as int].fields@.len() ==> #[trigger] new_slots@[new_inst@[j].base + i]
                        == pre.carried(nt, j, i),
                forall|x: int|
                    0 <= x < new_slots@.len() ==> (#[trigger] new_slots@[x] matches Value::Struct(g)
                        ==> pre.refers(g)),
            decreases pre.instances.len() - k,
        {
            let ty = self.instances[k].ty;
            let base = new_slots.len();
            let ghost before = new_slots@;
            proof {
                assert(pre.instances[k as int].ty < pre.types.len());
            }
            let mut i: usize = 0;
            while i < m.types[ty].fields.len()
                invariant
                    pre.wf(),
                    pre.accepts(m),
                    nt == m.types@,
                    self@ == pre.unchanged_update(),
                    k < pre.instances.len(),
                    ty == pre.instances[k as int].ty,
                    ty < pre.types.len(),
                    i <= nt[ty as int].fields@.len(),
                    new_slots@.len() == base + i,
                    base == before.len(),
                    forall|x: int| 0 <= x < base ==> #[trigger] new_slots@[x] == before[x],
                    forall|g: int| 0 <= g < i ==> #[trigger] new_slots@[base + g] == pre.carried(nt, k as int, g),
                    forall|x: int|
                        0 <= x < new_slots@.len() ==> (#[trigger] new_slots@[x] matches Value::Struct(g)
                            ==> pre.refers(g)),
                decreases nt[ty as int].fields@.len() - i,
            {
                let f = &m.types[ty].fields[i];
                let v = match find_field(&self.types[ty].fields, f.name.as_str()) {
                    Some(j) => {
                        proof {
                            lemma_field_index_bounds(pre.fields_of(ty), f.name@);
                            assert(pre.instances[k as int].base + pre.field_count(ty) <= pre.slots.len());
                        }
                        if self.types[ty].fields[j].tag == f.tag {
                            let n = self.slots.len();
                            assert(self.instances[k as int].base + j < n);
                            self.slots[self.instances[k].base + j]
                        } else {
                            zero_value(f.tag)
                        }
                    },
                    None => zero_value(f.tag),
                };
                assert(v == pre.carried(nt, k as int, i as int));
                proof {
                    if let Value::Struct(g) = v {
                        let j = field_index(pre.fields_of(ty), f.name@)->Some_0;
                        assert(pre.slots[pre.instances[k as int].base + j] == v);
                    }
                }
                new_slots.push(v);
                i = i + 1;
            }
            new_inst.push(InstanceRec { ty, base });
            proof {
                assert forall|j: int, g: int|
                    0 <= j < k + 1 && 0 <= g < nt[pre.instances[j].ty as int].fields@.len() implies #[trigger] new_slots@[new_inst@[j].base + g]
                        == pre.carried(nt, j, g) by {
                    if j < k {
                        assert(new_inst@[j] == new_inst@[j]);
                        assert(new_slots@[new_inst@[j].base + g] == before[new_inst@[j].base + g]);
                    } else {
                        assert(new_slots@[base + g] == pre.carried(nt, k as int, g));
                    }
                }
            }
            k = k + 1;
        }
        let ghost ni = new_inst@;
        let ghost ns = new_slots@;
        let Module { types, exports, imports: _ } = m;
        self.types = types;
        self.exports = exports;
        self.instances = new_inst;
        self.slots = new_slots;
        proof {
            let now = self@;
            assert(pre.reloads_to(m, now));
            assert forall|q: int| 0 <= q < now.instances.len() implies {
                &&& (#[trigger] now.instances[q]).ty < now.types.len()
                &&& now.instances[q].base + now.field_count(now.instances[q].ty) <= now.slots.len()
            } by {
                assert(pre.instances[q].ty < pre.types.len());
            }
            assert forall|x: int| 0 <= x < now.slots.len() implies (#[trigger] now.slots[x] matches Value::Struct(g)
                ==> now.refers(g)) by {
                if let Value::Struct(g) = now.slots[x] {
                    assert(pre.refers(g));
                }
            }
            assert forall|q: int| 0 <= q < now.roots.len() implies (#[trigger] now.roots[q]).instance
                < now.instances.len() by {
                assert(pre.roots[q] == now.roots[q]);
            }
            assert forall|q: int, i: int|
                0 <= q < now.instances.len() && 0 <= i < now.types[now.instances[q].ty as int].fields@.len() implies tag_of(
                now.slots[now.instances[q].base + i],
            ) == (#[trigger] now.types[now.instances[q].ty as int].fields@[i]).tag by {
                let ty = pre.instances[q].ty;
                let f = nt[ty as int].fields@[i];
                assert(now.slots[now.instances[q].base + i] == pre.carried(nt, q, i));
                crate::types::lemma_field_index_bounds(pre.fields_of(ty), f.name@);
                match field_index(pre.fields_of(ty), f.name@) {
                    Some(j) => {
                        if pre.fields_of(ty)[j].tag == f.tag {
                            assert(pre.types[pre.instances[q].ty as int].fields@[j].tag == f.tag);
                        } else {
                            assert(!(f.tag is Struct));
                        }
                    },
                    None => {
                        assert(!(f.tag is Struct));
                    },
                }
            }
        }
        Ok(true)
    }
}

impl Session {
    /// Invokes against the newest build: a pending build is applied first, as
    /// `update` does, and the call is then checked and opened as `invoke` does. If
    /// the pending build does not link, its `LinkError` is returned and no call is
    /// opened.
    pub fn invoke_insist(&mut self, name: &str, args: &Vec<Value>) -> (r: Result<Call, BridgeError>)
        requires
            old(self)@.wf(),
            old(self)@.epoch < u64::MAX - 1,
        ensures
            final(self)@.wf(),
            old(self)@.pending is None ==> old(self)@.invoked(name@, args@, r, final(self)@),
            old(self)@.pending is Some ==> match old(self)@.update_result() {
                Err(e) => (r matches Err(e2) && e2 == e) && final(self)@ == old(self)@.unchanged_update(),
                Ok(_) => exists|mid: SessionView|
                    old(self)@.reloads_to(old(self)@.pending->Some_0, mid) && mid.wf() && #[trigger] mid.invoked(
                        name@,
                        args@,
                        r,
                        final(self)@,
                    ),
            },
    {
        if self.reload_pending() {
            if let Err(e) = self.update() {
                return Err(e);
            }
            let ghost mid = self@;
            let r = self.invoke(name, args);
            assert(mid.invoked(name@, args@, r, self@));
            return r;
        }
        self.invoke(name, args)
    }
}

} // verus!
