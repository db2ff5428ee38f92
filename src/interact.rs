use vstd::prelude::*;

use crate::binary::{read_var_u64, var_u64_at};
use crate::error::{Error, ErrorKind};

verus! {

/// All types of interaction.
#[derive(Debug, Copy, Clone, PartialEq, Eq, Structural)]
pub enum InteractAction {
    LeaveVehicle,
    MouseOverEntity,
    NpcOpen,
    OpenInventory,
}

/// The action that byte `b` stands for.
pub open spec fn action_of(b: u8) -> Option<InteractAction> {
    if b == 3 {
        Some(InteractAction::LeaveVehicle)
    } else if b == 4 {
        Some(InteractAction::MouseOverEntity)
    } else if b == 5 {
        Some(InteractAction::NpcOpen)
    } else if b == 6 {
        Some(InteractAction::OpenInventory)
    } else {
        None
    }
}

impl InteractAction {
    /// The action for a wire byte; `Malformed` for any other byte.
    pub fn from_byte(value: u8) -> (r: Result<InteractAction, Error>)
        ensures
            match action_of(value) {
                Some(a) => r matches Ok(x) && x == a,
                None => r matches Err(e) && e.spec_kind() == ErrorKind::Malformed,
            },
    {
        match value {
            3 => Ok(InteractAction::LeaveVehicle),
            4 => Ok(InteractAction::MouseOverEntity),
            5 => Ok(InteractAction::NpcOpen),
            6 => Ok(InteractAction::OpenInventory),
            _ => Err(Error::new(ErrorKind::Malformed, "Invalid interact action type".to_owned())),
        }
    }

    /// The action carries a position.
    pub open spec fn spec_has_position(self) -> bool {
        self == InteractAction::MouseOverEntity || self == InteractAction::LeaveVehicle
    }
}

/// A position as the IEEE-754 single-precision bit patterns of its three
/// coordinates.
#[derive(Debug, Copy, Clone, PartialEq, Eq, Structural)]
pub struct Vector3Bits {
    pub x: u32,
    pub y: u32,
    pub z: u32,
}

/// Little-endian 32-bit integer at `i`.
pub open spec fn u32_le(s: Seq<u8>, i: int) -> int {
    s[i] + s[i + 1] * 256 + s[i + 2] * 65536 + s[i + 3] * 16777216
}

/// A player's interaction with an entity.
#[derive(Debug, Clone)]
pub struct Interact {
    /// Type of action to perform.
    pub action: InteractAction,
    /// Target of the interaction.
    pub target_runtime_id: u64,
    /// Position of the interaction; zero for actions that carry none.
    pub position: Vector3Bits,
}

/// Identifier of the interact packet.
pub const INTERACT_ID: u32 = 0x21;

fn read_u32_le(b: &[u8], i: usize) -> (r: u32)
    requires
        i + 4 <= b@.len(),
    ensures
        r == u32_le(b@, i as int),
{
    b[i] as u32 + (b[i + 1] as u32) * 256 + (b[i + 2] as u32) * 65536 + (b[i + 3] as u32)
        * 16777216
}

impl Interact {
    /// Decodes the body: an action byte, the target as a varint, then three
    /// little-endian 32-bit coordinates for actions that carry a position.
    /// Fails with `Malformed` on an unknown action or a truncated body.
    pub fn deserialize(b: &[u8]) -> (r: Result<Interact, Error>)
        ensures
            r.is_ok() <==> (b@.len() > 0 && action_of(b@[0]) is Some && var_u64_at(b@, 1) is Some
                && (action_of(b@[0]).unwrap().spec_has_position() ==> var_u64_at(b@, 1).unwrap().1
                + 12 <= b@.len())),
            r matches Err(e) ==> e.spec_kind() == ErrorKind::Malformed,
            r matches Ok(it) ==> {
                let (t, p) = var_u64_at(b@, 1).unwrap();
                &&& Some(it.action) == action_of(b@[0])
                &&& it.target_runtime_id == t
                &&& it.position == if it.action.spec_has_position() {
                    Vector3Bits {
                        x: u32_le(b@, p) as u32,
                        y: u32_le(b@, p + 4) as u32,
                        z: u32_le(b@, p + 8) as u32,
                    }
                } else {
                    Vector3Bits { x: 0, y: 0, z: 0 }
                }
            },
    {
        if b.len() == 0 {
            return Err(Error::new(ErrorKind::Malformed, "empty interact packet".to_owned()));
        }
        let action = InteractAction::from_byte(b[0])?;
        let (target_runtime_id, p) = read_var_u64(b, 1)?;
        let position = match action {
            InteractAction::MouseOverEntity | InteractAction::LeaveVehicle => {
                if p > b.len() || b.len() - p < 12 {
                    return Err(Error::new(ErrorKind::Malformed, "truncated position".to_owned()));
                }
                Vector3Bits { x: read_u32_le(b, p), y: read_u32_le(b, p + 4), z: read_u32_le(b, p + 8) }
            },
            _ => Vector3Bits { x: 0, y: 0, z: 0 },
        };
        Ok(Interact { action, target_runtime_id, position })
    }
}

} // verus!
