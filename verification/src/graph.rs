//! The room graph: rooms identified by index, each with an ordered list of
//! outgoing doors. A door either leads to another room or is the exit
//! sentinel that ends a walk.

use vstd::prelude::*;

verus! {

/// One outgoing door: either the exit sentinel or an edge to the room with
/// the given index.
#[derive(Clone, Copy, PartialEq, Eq, Structural, Debug)]
pub enum Door {
    Exit,
    To(usize),
}

/// A configuration fault, detected before any trial runs.
#[derive(Clone, Copy, PartialEq, Eq, Structural, Debug)]
pub enum ConfigError {
    /// A room has an empty door list, so a walk there could not move.
    RoomWithoutDoors,
    /// A door leads to a room index that the graph does not define.
    DoorToUnknownRoom,
    /// The requested total trial count is zero.
    ZeroTrials,
    /// The requested worker count is zero.
    ZeroWorkers,
    /// The starting room index is not a room of the graph.
    UnknownStartingRoom,
}

/// A room: an ordered list of outgoing doors.
#[derive(Clone)]
pub struct Room {
    pub doors: Vec<Door>,
}

/// A door is well formed when its target, if any, is a room index below
/// `n_rooms`.
pub open spec fn door_ok(d: Door, n_rooms: int) -> bool {
    match d {
        Door::Exit => true,
        Door::To(j) => (j as int) < n_rooms,
    }
}

/// A room is well formed when it has at least one door and every door is
/// well formed with respect to a graph of `n_rooms` rooms.
pub open spec fn room_ok(r: Room, n_rooms: int) -> bool {
    &&& r.doors@.len() >= 1
    &&& forall|j: int| 0 <= j < r.doors@.len() ==> door_ok(#[trigger] r.doors@[j], n_rooms)
}

/// Every room of the sequence is well formed.
pub open spec fn rooms_ok(rs: Seq<Room>) -> bool {
    forall|i: int| 0 <= i < rs.len() ==> room_ok(#[trigger] rs[i], rs.len() as int)
}

impl Room {
    pub fn new(doors: Vec<Door>) -> (r: Room)
        ensures
            r.doors@ == doors@,
    {
        Room { doors }
    }
}

/// The whole walk graph, immutable once constructed.
#[derive(Clone)]
pub struct Graph {
    pub rooms: Vec<Room>,
}

impl Graph {
    /// The graph invariant: every room has a door and every door resolves.
    pub open spec fn wf(self) -> bool {
        rooms_ok(self.rooms@)
    }

    /// Validates the room table once, at startup: fails when a room has no
    /// doors or a door names an unknown room, exactly as the invariant asks.
    #[verifier::loop_isolation(false)]
    pub fn new(rooms: Vec<Room>) -> (r: Result<Graph, ConfigError>)
        ensures
            r is Ok <==> rooms_ok(rooms@),
            r matches Ok(g) ==> g.rooms@ == rooms@,
            r == Err::<Graph, ConfigError>(ConfigError::RoomWithoutDoors)
                ==> exists|i: int| 0 <= i < rooms@.len() && rooms@[i].doors@.len() == 0,
            r == Err::<Graph, ConfigError>(ConfigError::DoorToUnknownRoom)
                ==> exists|i: int, j: int|
                    0 <= i < rooms@.len() && 0 <= j < rooms@[i].doors@.len()
                        && !door_ok(rooms@[i].doors@[j], rooms@.len() as int),
            r is Err ==> r == Err::<Graph, ConfigError>(ConfigError::RoomWithoutDoors)
                || r == Err::<Graph, ConfigError>(ConfigError::DoorToUnknownRoom),
    {
        let n = rooms.len();
        let mut i: usize = 0;
        while i < n
            invariant
                i <= n,
                forall|x: int| 0 <= x < i ==> room_ok(#[trigger] rooms@[x], n as int),
            decreases n - i,
        {
            let room = &rooms[i];
            if room.doors.len() == 0 {
                return Err(ConfigError::RoomWithoutDoors);
            }
            let mut j: usize = 0;
            while j < room.doors.len()
                invariant
                    j <= room.doors@.len(),
                    forall|y: int| 0 <= y < j ==> door_ok(#[trigger] room.doors@[y], n as int),
                decreases room.doors@.len() - j,
            {
                match room.doors[j] {
                    Door::Exit => {},
                    Door::To(t) => {
                        if t >= n {
                            return Err(ConfigError::DoorToUnknownRoom);
                        }
                    },
                }
                j += 1;
            }
            i += 1;
        }
        Ok(Graph { rooms })
    }
}

} // verus!
