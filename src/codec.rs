//! State frames (driver to controller) and command frames (controller to
//! driver) of the stream protocol.

use vstd::prelude::*;
use crate::model::{Elevator, Floor};
use crate::wire::{
    u32_at, u32_bytes, i32_of_bits, bits_of_i32, le_u32, read_u32, read_i32, push_u32, push_i32,
    lemma_bytes_of_value, lemma_value_of_bytes, lemma_i32_bits, lemma_bits_i32,
};

verus! {

/// The eight bytes of one command: elevator id, then target floor.
pub open spec fn command_bytes(c: (u32, i32)) -> Seq<u8> {
    u32_bytes(c.0) + u32_bytes(bits_of_i32(c.1))
}

/// The bytes of the commands `cs`, one after another.
pub open spec fn commands_body(cs: Seq<(u32, i32)>) -> Seq<u8>
    decreases cs.len(),
{
    if cs.len() == 0 {
        Seq::empty()
    } else {
        commands_body(cs.drop_last()) + command_bytes(cs.last())
    }
}

/// A command frame: the command count, then each command.
pub open spec fn encode_commands(cs: Seq<(u32, i32)>) -> Seq<u8> {
    u32_bytes(cs.len() as u32) + commands_body(cs)
}

/// The command whose eight bytes start at `p`.
pub open spec fn command_at(b: Seq<u8>, p: int) -> (u32, i32) {
    (u32_at(b, p), i32_of_bits(u32_at(b, p + 4)))
}

/// The commands of a command frame that fills `b` exactly; `None` where `b`
/// is not one.
pub open spec fn decode_commands(b: Seq<u8>) -> Option<Seq<(u32, i32)>> {
    if b.len() < 4 || b.len() != 4 + 8 * u32_at(b, 0) {
        None
    } else {
        Some(Seq::new(u32_at(b, 0) as nat, |j: int| command_at(b, 4 + 8 * j)))
    }
}

/// Command `j` occupies bytes `8 * j .. 8 * j + 8` of the body.
proof fn lemma_commands_body(cs: Seq<(u32, i32)>)
    ensures
        commands_body(cs).len() == 8 * cs.len(),
        forall|j: int, r: int| 0 <= j < cs.len() && 0 <= r < 8 ==> #[trigger] commands_body(cs)[8 * j + r]
            == command_bytes(cs[j])[r],
    decreases cs.len(),
{
    if cs.len() > 0 {
        let init = cs.drop_last();
        lemma_commands_body(init);
        assert forall|j: int, r: int| 0 <= j < cs.len() && 0 <= r < 8 implies #[trigger] commands_body(cs)[8 * j + r]
            == command_bytes(cs[j])[r] by {
            if j < cs.len() - 1 {
                assert(commands_body(init)[8 * j + r] == command_bytes(init[j])[r]);
            }
        }
    }
}

/// Encoding a command list and decoding the frame gives the list back.
pub proof fn lemma_decode_encode_commands(cs: Seq<(u32, i32)>)
    requires
        cs.len() <= u32::MAX,
    ensures
        decode_commands(encode_commands(cs)) == Some(cs),
{
    let b = encode_commands(cs);
    lemma_commands_body(cs);
    lemma_bytes_of_value(cs.len() as u32);
    assert(u32_at(b, 0) == cs.len());
    let ds = Seq::new(u32_at(b, 0) as nat, |j: int| command_at(b, 4 + 8 * j));
    assert forall|j: int| 0 <= j < cs.len() implies ds[j] == cs[j] by {
        let c = cs[j];
        let body = commands_body(cs);
        assert(body[8 * j + 0] == command_bytes(c)[0]);
        assert(body[8 * j + 1] == command_bytes(c)[1]);
        assert(body[8 * j + 2] == command_bytes(c)[2]);
        assert(body[8 * j + 3] == command_bytes(c)[3]);
        assert(body[8 * j + 4] == command_bytes(c)[4]);
        assert(body[8 * j + 5] == command_bytes(c)[5]);
        assert(body[8 * j + 6] == command_bytes(c)[6]);
        assert(body[8 * j + 7] == command_bytes(c)[7]);
        lemma_bytes_of_value(c.0);
        lemma_bytes_of_value(bits_of_i32(c.1));
        lemma_i32_bits(c.1);
    }
    assert(ds =~= cs);
}

/// A frame that decodes is the encoding of what it decodes to.
pub proof fn lemma_encode_decode_commands(b: Seq<u8>)
    requires
        decode_commands(b) is Some,
    ensures
        encode_commands(decode_commands(b)->Some_0) == b,
{
    let cs = decode_commands(b)->Some_0;
    let e = encode_commands(cs);
    lemma_commands_body(cs);
    let n = u32_at(b, 0);
    lemma_value_of_bytes(b[0], b[1], b[2], b[3]);
    assert forall|k: int| 0 <= k < b.len() implies e[k] == b[k] by {
        if k >= 4 {
            let j = (k - 4) / 8;
            let r = (k - 4) % 8;
            assert(k == 4 + 8 * j + r && 0 <= r < 8 && 0 <= j < n);
            let p = 4 + 8 * j;
            lemma_value_of_bytes(b[p], b[p + 1], b[p + 2], b[p + 3]);
            lemma_value_of_bytes(b[p + 4], b[p + 5], b[p + 6], b[p + 7]);
            lemma_bits_i32(u32_at(b, p + 4));
            assert(commands_body(cs)[8 * j + r] == command_bytes(cs[j])[r]);
        }
    }
    assert(e =~= b);
}

/// Encodes one command frame: the count, then each command's fields in the
/// order given.
pub fn write_commands(commands: &[(u32, i32)]) -> (r: Vec<u8>)
    requires
        commands@.len() <= u32::MAX,
    ensures
        r@ == encode_commands(commands@),
{
    let mut out: Vec<u8> = Vec::new();
    push_u32(&mut out, commands.len() as u32);
    let mut i: usize = 0;
    while i < commands.len()
        invariant
            0 <= i <= commands@.len(),
            out@ == u32_bytes(commands@.len() as u32) + commands_body(commands@.subrange(0, i as int)),
        decreases commands@.len() - i,
    {
        let (id, target) = commands[i];
        let ghost before = out@;
        push_u32(&mut out, id);
        push_i32(&mut out, target);
        proof {
            let s = commands@.subrange(0, i as int + 1);
            assert(s.drop_last() =~= commands@.subrange(0, i as int));
            assert(out@ =~= before + command_bytes(s.last()));
        }
        i = i + 1;
    }
    assert(commands@.subrange(0, commands@.len() as int) =~= commands@);
    out
}

/// Decodes a command frame that fills `b` exactly.
pub fn read_commands(b: &[u8]) -> (r: Option<Vec<(u32, i32)>>)
    ensures
        r is None <==> decode_commands(b@) is None,
        r matches Some(v) ==> decode_commands(b@) == Some(v@),
{
    if b.len() < 4 {
        return None;
    }
    let n = read_u32(b, 0);
    if (b.len() - 4) % 8 != 0 || (b.len() - 4) / 8 != n as usize {
        return None;
    }
    assert(b@.len() == b.len());
    let mut out: Vec<(u32, i32)> = Vec::new();
    let mut i: usize = 0;
    while i < n as usize
        invariant
            0 <= i <= n,
            b@.len() == 4 + 8 * n,
            b@.len() <= usize::MAX,
            n == u32_at(b@, 0),
            out@ == Seq::new(i as nat, |j: int| command_at(b@, 4 + 8 * j)),
        decreases n - i,
    {
        let p = 4 + 8 * i;
        let id = read_u32(b, p);
        let t = read_i32(b, p + 4);
        out.push((id, t));
        assert(out@ =~= Seq::new(i as nat + 1, |j: int| command_at(b@, 4 + 8 * j)));
        i = i + 1;
    }
    Some(out)
}

/// Why a state frame could not be decoded.
#[derive(Clone, Copy, PartialEq, Eq, Structural, Debug)]
pub enum DecodeError {
    /// No byte of a next frame is there: the driver has closed its side.
    EndOfStream,
    /// The bytes end before the fields that the declared counts require.
    Truncated,
}

/// The pressed floors, `n` of them, whose four-byte fields start at `p`.
pub open spec fn pressed_at(b: Seq<u8>, p: int, n: nat) -> Seq<i32> {
    Seq::new(n, |j: int| i32_of_bits(u32_at(b, p + 4 * j)))
}

/// Where the elevator record that starts at `p` ends.
pub open spec fn elevator_end(b: Seq<u8>, p: int) -> int {
    p + 16 + 4 * u32_at(b, p + 12)
}

/// The elevator record that starts at `p` lies within `b`.
pub open spec fn elevator_fits(b: Seq<u8>, p: int) -> bool {
    p + 16 <= b.len() && elevator_end(b, p) <= b.len()
}

/// Where `k` elevator records that start at `p` end; `None` where they do not
/// all lie within `b`.
pub open spec fn elevators_end(b: Seq<u8>, p: int, k: nat) -> Option<int>
    decreases k,
{
    if k == 0 {
        Some(p)
    } else {
        match elevators_end(b, p, (k - 1) as nat) {
            Some(q) => if elevator_fits(b, q) { Some(elevator_end(b, q)) } else { None },
            None => None,
        }
    }
}

/// The destination field: the sentinel -1 stands for no destination.
pub open spec fn destination_of(raw: i32) -> Option<i32> {
    if raw == -1 { None } else { Some(raw) }
}

/// `e` is the elevator at position `id` whose record starts at `p`.
pub open spec fn is_elevator_at(b: Seq<u8>, p: int, id: int, e: Elevator) -> bool {
    &&& e.id == id
    &&& e.current_floor_val == i32_of_bits(u32_at(b, p))
    &&& e.destination_floor_val == destination_of(i32_of_bits(u32_at(b, p + 4)))
    &&& e.load_bits == u32_at(b, p + 8)
    &&& e.pressed_buttons@ == pressed_at(b, p + 16, u32_at(b, p + 12) as nat)
    &&& e.commands@.len() == 0
}

/// The floor whose six-byte record starts at `p`.
pub open spec fn floor_at(b: Seq<u8>, p: int) -> Floor {
    Floor { level_val: i32_of_bits(u32_at(b, p)), up: b[p + 4] != 0, down: b[p + 5] != 0 }
}

/// Where the elevator records of the frame at the start of `b` end.
pub open spec fn floors_start(b: Seq<u8>) -> Option<int> {
    if b.len() < 8 { None } else { elevators_end(b, 8, u32_at(b, 0) as nat) }
}

/// The length of the state frame at the start of `b`; `None` where `b` ends
/// before it does.
pub open spec fn state_frame_len(b: Seq<u8>) -> Option<int> {
    match floors_start(b) {
        Some(q) => if q + 6 * u32_at(b, 4) <= b.len() { Some(q + 6 * u32_at(b, 4)) } else { None },
        None => None,
    }
}

/// The frame at the start of `b` decodes to `es` and `fs`.
pub open spec fn is_state_frame(b: Seq<u8>, es: Seq<Elevator>, fs: Seq<Floor>) -> bool {
    &&& b.len() >= 8
    &&& es.len() == u32_at(b, 0)
    &&& forall|j: int| 0 <= j < es.len() ==> is_elevator_at(b, elevators_end(b, 8, j as nat)->Some_0, j, #[trigger] es[j])
    &&& floors_start(b) matches Some(q) && fs == Seq::new(u32_at(b, 4) as nat, |j: int| floor_at(b, q + 6 * j))
}

/// Once the records run past the end of `b`, more records do too.
proof fn lemma_elevators_end_fails(b: Seq<u8>, p: int, k: nat, j: nat)
    requires
        elevators_end(b, p, k) is None,
        k <= j,
    ensures
        elevators_end(b, p, j) is None,
    decreases j,
{
    if k < j {
        lemma_elevators_end_fails(b, p, k, (j - 1) as nat);
    }
}

/// Reads one elevator record that starts at `p`, the elevator at position `id`.
fn read_elevator(b: &[u8], p: usize, id: u32) -> (r: (Elevator, usize))
    requires
        elevator_fits(b@, p as int),
    ensures
        is_elevator_at(b@, p as int, id as int, r.0),
        r.1 == elevator_end(b@, p as int),
{
    assert(b@.len() == b.len());
    let current = read_i32(b, p);
    let dest_raw = read_i32(b, p + 4);
    let destination = if dest_raw == -1 { None } else { Some(dest_raw) };
    let load_bits = read_u32(b, p + 8);
    let count = read_u32(b, p + 12);
    let start = p + 16;
    let mut pressed: Vec<i32> = Vec::new();
    let mut i: usize = 0;
    while i < count as usize
        invariant
            0 <= i <= count,
            count == u32_at(b@, p + 12),
            start == p + 16,
            elevator_fits(b@, p as int),
            b@.len() <= usize::MAX,
            pressed@ == pressed_at(b@, start as int, i as nat),
        decreases count - i,
    {
        let v = read_i32(b, start + 4 * i);
        pressed.push(v);
        assert(pressed@ =~= pressed_at(b@, start as int, i as nat + 1));
        i = i + 1;
    }
    let end = start + 4 * (count as usize);
    (Elevator::new(id, current, destination, load_bits, pressed), end)
}

/// Decodes the state frame at the start of `b`: the elevators, each with its
/// position as id, the floors, and the number of bytes the frame takes. Reads
/// no byte past the frame.
pub fn read_state(b: &[u8]) -> (r: Result<(Vec<Elevator>, Vec<Floor>, usize), DecodeError>)
    ensures
        r == Err::<(Vec<Elevator>, Vec<Floor>, usize), DecodeError>(DecodeError::EndOfStream) <==> b@.len() == 0,
        r == Err::<(Vec<Elevator>, Vec<Floor>, usize), DecodeError>(DecodeError::Truncated) <==> (b@.len() > 0 && state_frame_len(b@) is None),
        r matches Ok((es, fs, n)) ==> state_frame_len(b@) == Some(n as int) && is_state_frame(b@, es@, fs@),
{
    assert(b@.len() == b.len());
    if b.len() == 0 {
        return Err(DecodeError::EndOfStream);
    }
    if b.len() < 8 {
        return Err(DecodeError::Truncated);
    }
    let elevator_count = read_u32(b, 0);
    let floor_count = read_u32(b, 4);
    let mut elevators: Vec<Elevator> = Vec::new();
    let mut q: usize = 8;
    let mut i: usize = 0;
    while i < elevator_count as usize
        invariant
            0 <= i <= elevator_count,
            b@.len() >= 8,
            b@.len() <= usize::MAX,
            elevator_count == u32_at(b@, 0),
            elevators_end(b@, 8, i as nat) == Some(q as int),
            elevators@.len() == i,
            forall|j: int| 0 <= j < i ==> is_elevator_at(b@, elevators_end(b@, 8, j as nat)->Some_0, j, #[trigger] elevators@[j]),
        decreases elevator_count - i,
    {
        let rest = b.len() - q;
        if rest < 16 || (rest - 16) / 4 < read_u32(b, q + 12) as usize {
            proof {
                lemma_elevators_end_fails(b@, 8, i as nat + 1, elevator_count as nat);
            }
            return Err(DecodeError::Truncated);
        }
        let (e, end) = read_elevator(b, q, i as u32);
        elevators.push(e);
        q = end;
        i = i + 1;
    }
    let rest = b.len() - q;
    if rest / 6 < floor_count as usize {
        return Err(DecodeError::Truncated);
    }
    let mut floors: Vec<Floor> = Vec::new();
    let mut k: usize = 0;
    while k < floor_count as usize
        invariant
            0 <= k <= floor_count,
            floor_count == u32_at(b@, 4),
            q + 6 * floor_count <= b@.len(),
            b@.len() <= usize::MAX,
            floors@ == Seq::new(k as nat, |j: int| floor_at(b@, q + 6 * j)),
        decreases floor_count - k,
    {
        let p = q + 6 * k;
        let level = read_i32(b, p);
        floors.push(Floor::new(level, b[p + 4] != 0, b[p + 5] != 0));
        assert(floors@ =~= Seq::new(k as nat + 1, |j: int| floor_at(b@, q + 6 * j)));
        k = k + 1;
    }
    Ok((elevators, floors, q + 6 * (floor_count as usize)))
}

} // verus!
