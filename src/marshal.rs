use vstd::prelude::*;
use crate::types::{BridgeError, StructHandle, TypeTag, Value};
use crate::session::{Session, SessionView};

verus! {

/// `pos` may be read as a two-dimensional vector: it is a handle of the current
/// epoch, and its type declares `x` and `y` as `f32`.
pub open spec fn is_vec2(v: SessionView, pos: StructHandle) -> bool {
    &&& v.valid_handle(pos)
    &&& v.declared_tag(pos.ty, seq!['x']) == Some(TypeTag::F32)
    &&& v.declared_tag(pos.ty, seq!['y']) == Some(TypeTag::F32)
}

/// Reads a two-dimensional vector, a struct with `f32` fields `x` and `y`, as the
/// bit patterns of its two coordinates, as they are stored now.
pub fn marshal_vec2(session: &Session, pos: &StructHandle) -> (r: (u32, u32))
    requires
        session@.wf(),
        is_vec2(session@, *pos),
    ensures
        session@.get_field(*pos, seq!['x'], TypeTag::F32) == Ok::<Value, BridgeError>(Value::F32(r.0)),
        session@.get_field(*pos, seq!['y'], TypeTag::F32) == Ok::<Value, BridgeError>(Value::F32(r.1)),
{
    proof {
        reveal_strlit("x");
        reveal_strlit("y");
        assert("x"@ =~= seq!['x']);
        assert("y"@ =~= seq!['y']);
    }
    let x = session.get_field(pos, "x", TypeTag::F32);
    let y = session.get_field(pos, "y", TypeTag::F32);
    match (x, y) {
        (Ok(Value::F32(x)), Ok(Value::F32(y))) => (x, y),
        _ => {
            proof {
                assert(false);
            }
            (0, 0)
        },
    }
}

} // verus!
