use vstd::prelude::*;
use crate::types::{Module, BridgeError, StructHandle, TypeTag, Value, tag_of, export_index, field_index};
use crate::session::{RootedHandle, SessionView, restamp};

verus! {

/// A value that may be used now reads back unchanged.
proof fn lemma_restamp_usable(v: SessionView, x: Value)
    requires
        v.usable(x),
    ensures
        restamp(x, v.epoch) == x,
{
    if let Value::Struct(h) = x {
        assert(StructHandle { epoch: v.epoch, ..h } == h);
    }
}

/// Writing a field and reading it back with the value's own tag returns the value
/// written.
pub proof fn lemma_set_then_get(v: SessionView, h: StructHandle, name: Seq<char>, x: Value)
    requires
        v.wf(),
        v.set_field(h, name, x) is Ok,
    ensures
        v.set_field(h, name, x)->Ok_0.get_field(h, name, tag_of(x)) == Ok::<Value, BridgeError>(x),
{
    let n = v.set_field(h, name, x)->Ok_0;
    assert(n.valid_handle(h));
    assert(n.fields_of(h.ty) == v.fields_of(h.ty));
    crate::types::lemma_field_index_bounds(v.fields_of(h.ty), name);
    assert(v.instances[h.instance as int].base + v.field_count(h.ty) <= v.slots.len());
    let i = field_index(v.fields_of(h.ty), name)->Some_0;
    assert(n.slots[v.slot_of(h.instance, i)] == x);
    lemma_restamp_usable(v, x);
}

/// Every mutation that the session offers keeps the root set and the existing
/// instances, and `invoke` and `update` advance the epoch.
pub proof fn lemma_mutations_keep_roots(v: SessionView, h: StructHandle, name: Seq<char>, x: Value, ty: usize, values: Seq<Value>, m: Module)
    requires
        v.epoch < u64::MAX,
    ensures
        v.keeps_roots(v.advanced()) && v.advanced().epoch > v.epoch,
        v.keeps_roots(v.unchanged_update()) && v.unchanged_update().epoch > v.epoch,
        forall|n: SessionView| #[trigger] v.reloads_to(m, n) ==> v.keeps_roots(n) && n.epoch > v.epoch,
        v.keeps_roots(SessionView { faulted: true, ..v }),
        v.set_field(h, name, x) is Ok ==> v.keeps_roots(v.set_field(h, name, x)->Ok_0),
        v.keeps_roots(v.allocated(ty, values)),
{
}

/// A rooted handle that is held resolves, after any run of steps that keep the
/// root set, to a handle that may be used in the last state.
pub proof fn lemma_rooted_resolves(states: Seq<SessionView>, r: RootedHandle)
    requires
        states.len() > 0,
        forall|i: int| 0 <= i < states.len() ==> (#[trigger] states[i]).wf(),
        forall|i: int| 0 <= i < states.len() - 1 ==> (#[trigger] states[i]).keeps_roots(states[i + 1]),
        states[0].live(r),
    ensures
        forall|i: int|
            0 <= i < states.len() ==> ((#[trigger] states[i]).resolve(r) matches Ok(h)
                && states[i].valid_handle(h)),
    decreases states.len(),
{
    if states.len() > 1 {
        let prefix = states.drop_last();
        assert forall|i: int| 0 <= i < prefix.len() - 1 implies (#[trigger] prefix[i]).keeps_roots(prefix[i + 1]) by {
            assert(states[i].keeps_roots(states[i + 1]));
        }
        assert forall|i: int| 0 <= i < prefix.len() implies (#[trigger] prefix[i]).wf() by {
            assert(states[i].wf());
        }
        lemma_rooted_resolves(prefix, r);
        let last = states.len() - 1;
        let prev = states[last - 1];
        assert(prefix[last - 1] == prev);
        assert(prev.keeps_roots(states[last]));
        assert forall|i: int| 0 <= i < states.len() implies ((#[trigger] states[i]).resolve(r) matches Ok(h)
            && states[i].valid_handle(h)) by {
            if i < last {
                assert(prefix[i] == states[i]);
            } else {
                assert(prev.resolve(r) is Ok);
                assert(states[i].live(r));
                let k = states[i].roots[r.spec_slot() as int].instance;
                assert(states[i].roots[r.spec_slot() as int] == prev.roots[r.spec_slot() as int]);
                assert(k < states[i].instances.len());
            }
        }
    } else {
        let s = states[0];
        let k = s.roots[r.spec_slot() as int].instance;
        assert(k < s.instances.len());
    }
}

/// A transient handle is refused by every later state whose epoch has moved on.
pub proof fn lemma_transient_goes_stale(a: SessionView, b: SessionView, h: StructHandle, name: Seq<char>, tag: TypeTag, x: Value)
    requires
        a.valid_handle(h),
        a.epoch < b.epoch,
    ensures
        !b.valid_handle(h),
        b.get_field(h, name, tag) == Err::<Value, BridgeError>(BridgeError::StaleHandle),
        b.set_field(h, name, x) == Err::<SessionView, BridgeError>(BridgeError::StaleHandle),
{
}

/// Invoking a name that the module does not export fails with `UnknownFunction`.
pub proof fn lemma_unknown_function(v: SessionView, name: Seq<char>, args: Seq<Value>)
    requires
        !v.faulted,
        export_index(v.exports, name) is None,
    ensures
        v.invoke_error(name, args) == Some(BridgeError::UnknownFunction),
{
}

/// Two reads of one struct-typed field give the same handle, which may be used,
/// and a write through the first is seen by a read through the second.
pub proof fn lemma_struct_field_alias(v: SessionView, h: StructHandle, name: Seq<char>, t: usize, a: StructHandle, b: StructHandle, sub: Seq<char>, x: Value)
    requires
        v.wf(),
        v.get_field(h, name, TypeTag::Struct(t)) == Ok::<Value, BridgeError>(Value::Struct(a)),
        v.get_field(h, name, TypeTag::Struct(t)) == Ok::<Value, BridgeError>(Value::Struct(b)),
    ensures
        a == b,
        v.valid_handle(a),
        v.set_field(a, sub, x) is Ok ==> v.set_field(a, sub, x)->Ok_0.get_field(b, sub, tag_of(x))
            == Ok::<Value, BridgeError>(x),
{
    let i = field_index(v.fields_of(h.ty), name)->Some_0;
    crate::types::lemma_field_index_bounds(v.fields_of(h.ty), name);
    let s = v.slot_of(h.instance, i);
    assert(v.instances[h.instance as int].base + v.field_count(h.ty) <= v.slots.len());
    assert(v.slots[s] matches Value::Struct(g) ==> v.refers(g));
    if v.set_field(a, sub, x) is Ok {
        lemma_set_then_get(v, a, sub, x);
    }
}

} // verus!
