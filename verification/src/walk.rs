//! The walk engine: starting from a room, repeatedly choose one outgoing
//! door uniformly at random until the chosen door is the exit sentinel, and
//! return the number of doors traversed.

use vstd::prelude::*;
use crate::graph::Door;
use crate::graph::Graph;
use crate::graph::Room;
use crate::graph::room_ok;
use crate::rng::pick_index;

verus! {

/// A door list whose single entry is the exit sentinel: a walk that starts
/// there ends after exactly one move.
pub open spec fn exit_only(doors: Seq<Door>) -> bool {
    doors.len() == 1 && doors[0] == Door::Exit
}

/// The rooms a walk visited, in order: it begins at `start`, every room is a
/// room of the graph, each consecutive pair is joined by a door of the
/// earlier room, and the room visited last has an exit door to leave by. The
/// walk's outcome is the trace's length: one door per visited room, the last
/// door being the exit.
pub open spec fn walk_trace(rooms: Seq<Room>, start: int, t: Seq<int>) -> bool {
    &&& t.len() >= 1
    &&& t[0] == start
    &&& forall|i: int| 0 <= i < t.len() ==> 0 <= #[trigger] t[i] < rooms.len()
    &&& forall|i: int|
        0 <= i < t.len() - 1 ==> rooms[#[trigger] t[i]].doors@.contains(
            Door::To(t[i + 1] as usize),
        )
    &&& rooms[t.last()].doors@.contains(Door::Exit)
}

impl Room {
    /// One uniformly random door of this room.
    pub fn random_door(&self, rng: &mut rand::rngs::SmallRng) -> (d: Door)
        requires
            self.doors@.len() >= 1,
        ensures
            self.doors@.contains(d),
    {
        let i = pick_index(rng, self.doors.len());
        self.doors[i]
    }
}

/// One trial: walk from `start` until a chosen door is the exit sentinel,
/// counting moves. Every room has at least one door, so the walk always makes
/// at least one move, and the count is the length of a door-path the graph
/// really admits. The step counter stops at `u64::MAX`, a bound no finite run
/// approaches, so the count never wraps.
#[verifier::loop_isolation(false)]
pub fn random_walk(graph: &Graph, start: usize, rng: &mut rand::rngs::SmallRng) -> (steps: u64)
    requires
        graph.wf(),
        start < graph.rooms@.len(),
    ensures
        1 <= steps,
        steps < u64::MAX ==> exists|t: Seq<int>|
            walk_trace(graph.rooms@, start as int, t) && t.len() == steps,
        exit_only(graph.rooms@[start as int].doors@) ==> steps == 1,
{
    let mut steps: u64 = 0;
    let mut room: usize = start;
    let ghost mut trace: Seq<int> = seq![start as int];
    while steps < u64::MAX
        invariant
            room < graph.rooms@.len(),
            trace.len() == steps + 1,
            trace[0] == start as int,
            trace.last() == room as int,
            forall|i: int| 0 <= i < trace.len() ==> 0 <= #[trigger] trace[i] < graph.rooms@.len(),
            forall|i: int|
                0 <= i < trace.len() - 1 ==> graph.rooms@[#[trigger] trace[i]].doors@.contains(
                    Door::To(trace[i + 1] as usize),
                ),
            exit_only(graph.rooms@[start as int].doors@) ==> steps == 0 && room == start,
        decreases u64::MAX - steps,
    {
        steps = steps + 1;
        assert(room_ok(graph.rooms@[room as int], graph.rooms@.len() as int));
        let here = &graph.rooms[room];
        let door = here.random_door(rng);
        match door {
            Door::Exit => {
                proof {
                    assert(walk_trace(graph.rooms@, start as int, trace));
                }
                return steps;
            },
            Door::To(next) => {
                assert(next < graph.rooms@.len());
                proof {
                    trace = trace.push(next as int);
                }
                room = next;
            },
        }
    }
    steps
}

} // verus!
