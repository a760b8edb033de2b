//! One step of the serving loop: a state frame in, a command frame out.

use vstd::prelude::*;
use crate::codec::{read_state, write_commands, encode_commands, state_frame_len, is_state_frame, DecodeError};
use crate::dispatch::{Controller, commands_for};
use crate::model::Elevator;

verus! {

/// Serves the state frame at the start of `input`: decodes it, runs one tick
/// and encodes the commands. Returns the command frame and the number of input
/// bytes the state frame took. On an error no tick runs, and the loop that
/// calls this is to stop.
pub fn serve_frame(ctrl: &mut Controller, input: &[u8]) -> (r: Result<(Vec<u8>, usize), DecodeError>)
    ensures
        r == Err::<(Vec<u8>, usize), DecodeError>(DecodeError::EndOfStream) <==> input@.len() == 0,
        r == Err::<(Vec<u8>, usize), DecodeError>(DecodeError::Truncated) <==> (input@.len() > 0 && state_frame_len(input@) is None),
        r is Err ==> *final(ctrl) == *old(ctrl),
        r matches Ok((out, n)) ==> {
            &&& state_frame_len(input@) == Some(n as int)
            &&& final(ctrl).tick_counter == (old(ctrl).tick_counter + 1) % 0x1_0000_0000_0000_0000
            &&& exists|es: Seq<Elevator>, fs: Seq<crate::model::Floor>| is_state_frame(input@, es, fs)
                && out@ == encode_commands(commands_for(es, fs, old(ctrl).tick_counter, es.len() as int))
        },
{
    match read_state(input) {
        Err(e) => Err(e),
        Ok((elevators, floors, n)) => {
            let commands = ctrl.tick(elevators.as_slice(), floors.as_slice());
            proof {
                lemma_commands_for_len(elevators@, floors@, old(ctrl).tick_counter, elevators@.len() as int);
            }
            let out = write_commands(commands.as_slice());
            Ok((out, n))
        },
    }
}

/// A tick emits at most one command per elevator.
proof fn lemma_commands_for_len(es: Seq<Elevator>, fs: Seq<crate::model::Floor>, tick: u64, k: int)
    requires
        0 <= k <= es.len(),
    ensures
        commands_for(es, fs, tick, k).len() <= k,
    decreases k,
{
    if k > 0 {
        lemma_commands_for_len(es, fs, tick, k - 1);
    }
}

} // verus!
