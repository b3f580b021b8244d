//! Variable-length integers: seven bits to a byte, the lowest first, the top bit set on every
//! byte but the last. They are read out of a [`Source`], which may break off.
use crate::error::{invalid, Error, ErrorKind};
use crate::error;
use vstd::prelude::*;

verus! {

/// What follows the last byte of a source.
#[derive(Debug, Clone, Copy, PartialEq, Eq, Structural)]
pub enum StreamEnd {
    /// The source ended where its writer ended it.
    Complete,
    /// The source was cut off.
    Incomplete,
    /// The source cannot be decoded further.
    Corrupt,
}

/// Bytes to read, and what comes behind them.
#[derive(Debug)]
pub struct Source {
    pub data: Vec<u8>,
    pub end: StreamEnd,
}

/// The most bytes that a number takes.
pub const MAX_LEN: usize = 10;

/// The error of a read that asks for more than there is.
pub open spec fn short_read_model(end: StreamEnd) -> error::ErrorModel {
    match end {
        StreamEnd::Complete => error::error_model(
            ErrorKind::UnexpectedEof,
            "failed to fill whole buffer"@,
        ),
        StreamEnd::Incomplete => error::error_model(
            ErrorKind::UnexpectedEof,
            "incomplete deflate stream"@,
        ),
        StreamEnd::Corrupt => error::error_model(
            ErrorKind::InvalidInput,
            "corrupt deflate stream"@,
        ),
    }
}

/// The bytes of a number.
pub open spec fn varint_bytes(value: nat) -> Seq<u8>
    decreases value,
{
    if value < 128 {
        seq![value as u8]
    } else {
        seq![(value % 128 + 128) as u8] + varint_bytes(value / 128)
    }
}

/// The number that a row of seven-bit groups makes.
pub open spec fn groups_value(groups: Seq<u8>) -> nat
    decreases groups.len(),
{
    if groups.len() == 0 {
        0
    } else {
        (groups[0] % 128) as nat + 128 * groups_value(groups.drop_first())
    }
}

/// How many bytes the number at `pos` takes: up to the first byte whose top bit is clear. `None`
/// when none of the first `room` bytes there is.
pub open spec fn varint_len(data: Seq<u8>, pos: int, room: nat) -> Option<nat>
    decreases room,
{
    if room == 0 || pos >= data.len() {
        None
    } else if data[pos] < 128 {
        Some(1)
    } else {
        match varint_len(data, pos + 1, (room - 1) as nat) {
            Some(len) => Some(len + 1),
            None => None,
        }
    }
}

/// What reading a number at `pos` gives: the number and the position behind it, or the error.
pub open spec fn varint_at(data: Seq<u8>, end: StreamEnd, pos: int) -> Result<
    (nat, int),
    error::ErrorModel,
> {
    match varint_len(data, pos, MAX_LEN as nat) {
        Some(len) => {
            let value = groups_value(data.subrange(pos, pos + len));
            if value <= u64::MAX {
                Ok((value, pos + len))
            } else {
                Err(error::invalid_model("varint overflows 64 bits"@))
            }
        },
        None => if pos + MAX_LEN <= data.len() {
            Err(error::invalid_model("varint overflows 64 bits"@))
        } else {
            Err(short_read_model(end))
        },
    }
}

/// The weight of the group at place `i`.
spec fn weight(i: nat) -> nat
    decreases i,
{
    if i == 0 {
        1
    } else {
        128 * weight((i - 1) as nat)
    }
}

proof fn weight_of_last_group()
    ensures
        weight(0) == 1,
        weight(9) == 0x8000_0000_0000_0000,
        weight(10) == 128 * 0x8000_0000_0000_0000,
{
    reveal_with_fuel(weight, 11);
}

proof fn weight_grows(i: nat, j: nat)
    requires
        i <= j,
    ensures
        1 <= weight(i) <= weight(j),
    decreases j,
{
    if i < j {
        weight_grows(i, (j - 1) as nat);
    } else if i > 0 {
        weight_grows((i - 1) as nat, (i - 1) as nat);
    }
}

proof fn groups_value_push(groups: Seq<u8>, group: u8)
    ensures
        groups_value(groups.push(group)) == groups_value(groups) + weight(groups.len()) * (group
            % 128),
    decreases groups.len(),
{
    let more = groups.push(group);
    if groups.len() == 0 {
        assert(more.drop_first() =~= Seq::empty());
        assert(groups_value(more.drop_first()) == 0);
        assert(weight(0) == 1);
        assert(weight(groups.len()) * (group % 128) == group % 128) by (nonlinear_arith)
            requires
                weight(groups.len()) == 1,
        ;
    } else {
        assert(more.drop_first() =~= groups.drop_first().push(group));
        groups_value_push(groups.drop_first(), group);
        let rest = groups_value(groups.drop_first()) as int;
        let w = weight((groups.len() - 1) as nat) as int;
        let g = (group % 128) as int;
        assert(128 * (rest + w * g) == 128 * rest + (128 * w) * g) by (nonlinear_arith);
        assert(weight(groups.len()) == 128 * w);
        assert(more[0] == groups[0]);
    }
}

/// Where the first byte with a clear top bit stands decides the length.
proof fn varint_len_at(data: Seq<u8>, pos: int, len: nat, room: nat)
    requires
        0 <= pos,
        1 <= len <= room,
        pos + len <= data.len(),
        forall|j: int| pos <= j < pos + len - 1 ==> #[trigger] data[j] >= 128,
        data[pos + len - 1] < 128,
    ensures
        varint_len(data, pos, room) == Some(len),
    decreases len,
{
    if len > 1 {
        assert(data[pos] >= 128);
        varint_len_at(data, pos + 1, (len - 1) as nat, (room - 1) as nat);
    }
}

proof fn varint_len_none(data: Seq<u8>, pos: int, room: nat)
    requires
        0 <= pos,
        forall|j: int| pos <= j < pos + room && j < data.len() ==> #[trigger] data[j] >= 128,
    ensures
        varint_len(data, pos, room) is None,
    decreases room,
{
    if room > 0 && pos < data.len() {
        assert(data[pos] >= 128);
        varint_len_none(data, pos + 1, (room - 1) as nat);
    }
}

/// The position that a read leaves lies behind the one that it started from, within the data.
pub proof fn varint_at_moves_on(data: Seq<u8>, end: StreamEnd, pos: int)
    requires
        0 <= pos,
    ensures
        varint_at(data, end, pos) is Ok ==> pos < varint_at(data, end, pos)->Ok_0.1 <= data.len(),
{
    varint_len_in_data(data, pos, MAX_LEN as nat);
}

proof fn varint_len_in_data(data: Seq<u8>, pos: int, room: nat)
    requires
        0 <= pos,
    ensures
        varint_len(data, pos, room) is Some ==> 0 < varint_len(data, pos, room)->0 && pos
            + varint_len(data, pos, room)->0 <= data.len(),
    decreases room,
{
    if room > 0 && pos < data.len() && data[pos] >= 128 {
        varint_len_in_data(data, pos + 1, (room - 1) as nat);
    }
}

proof fn varint_bytes_shape(value: nat, room: nat)
    requires
        value < weight(room),
        room > 0,
    ensures
        1 <= varint_bytes(value).len() <= room,
        forall|j: int|
            0 <= j < varint_bytes(value).len() - 1 ==> #[trigger] varint_bytes(value)[j] >= 128,
        varint_bytes(value).last() < 128,
        groups_value(varint_bytes(value)) == value,
    decreases room,
{
    let bytes = varint_bytes(value);
    if value < 128 {
        assert(bytes.drop_first() =~= Seq::empty());
        assert(groups_value(bytes.drop_first()) == 0);
    } else {
        assert(weight(room) == 128 * weight((room - 1) as nat));
        assert(room > 1) by {
            assert(weight(0) == 1);
            assert(weight(1) == 128 * weight(0));
        }
        varint_bytes_shape(value / 128, (room - 1) as nat);
        assert(bytes.drop_first() =~= varint_bytes(value / 128));
        assert(bytes.last() == varint_bytes(value / 128).last());
        assert forall|j: int| 0 <= j < bytes.len() - 1 implies #[trigger] bytes[j] >= 128 by {
            if j > 0 {
                assert(bytes[j] == varint_bytes(value / 128)[j - 1]);
            }
        }
        assert(bytes[0] % 128 == value % 128);
    }
}

/// Reading a number where it was written gives it back, and the position behind it, whatever
/// stands in front of it and behind it.
pub proof fn varint_round_trip(value: u64, front: Seq<u8>, rest: Seq<u8>, end: StreamEnd)
    ensures
        varint_at(front + varint_bytes(value as nat) + rest, end, front.len() as int) == Ok::<
            _,
            error::ErrorModel,
        >((value as nat, (front.len() + varint_bytes(value as nat).len()) as int)),
{
    let bytes = varint_bytes(value as nat);
    let data = front + bytes + rest;
    let pos = front.len() as int;
    weight_of_last_group();
    varint_bytes_shape(value as nat, MAX_LEN as nat);
    assert forall|j: int| pos <= j < pos + bytes.len() - 1 implies #[trigger] data[j] >= 128 by {
        assert(data[j] == bytes[j - pos]);
    }
    assert(data[pos + bytes.len() - 1] == bytes.last());
    varint_len_at(data, pos, bytes.len(), MAX_LEN as nat);
    assert(data.subrange(pos, pos + bytes.len()) =~= bytes);
}

/// The error of a read that asks for more than there is.
pub fn short_read(end: StreamEnd) -> (error: Error)
    ensures
        error@ == short_read_model(end),
{
    match end {
        StreamEnd::Complete => Error::new(
            ErrorKind::UnexpectedEof,
            "failed to fill whole buffer".to_owned(),
        ),
        StreamEnd::Incomplete => Error::new(
            ErrorKind::UnexpectedEof,
            "incomplete deflate stream".to_owned(),
        ),
        StreamEnd::Corrupt => Error::new(
            ErrorKind::InvalidInput,
            "corrupt deflate stream".to_owned(),
        ),
    }
}

/// Appends a number to `out`.
pub fn encode(out: &mut Vec<u8>, value: u64)
    ensures
        final(out)@ == old(out)@ + varint_bytes(value as nat),
{
    let mut rest: u64 = value;
    while rest >= 128
        invariant
            out@ + varint_bytes(rest as nat) == old(out)@ + varint_bytes(value as nat),
        decreases rest,
    {
        let ghost before = out@;
        out.push((rest % 128) as u8 + 128);
        assert(before + varint_bytes(rest as nat) =~= out@ + varint_bytes((rest / 128) as nat));
        rest = rest / 128;
    }
    let ghost before = out@;
    out.push(rest as u8);
    assert(before + varint_bytes(rest as nat) =~= out@);
}

/// Reads the number at `pos`, and the position behind it.
pub fn decode(data: &[u8], end: StreamEnd, pos: usize) -> (read: Result<(u64, usize), Error>)
    requires
        pos <= data@.len(),
    ensures
        match (read, varint_at(data@, end, pos as int)) {
            (Ok((value, next)), Ok((value_spec, next_spec))) => value == value_spec && next
                == next_spec && pos < next <= data@.len(),
            (Err(err), Err(err_spec)) => err@ == err_spec,
            _ => false,
        },
{
    let mut value: u64 = 0;
    let mut scale: u64 = 1;
    let mut i: usize = 0;
    proof {
        weight_of_last_group();
        assert(data@.subrange(pos as int, pos as int) =~= Seq::empty());
    }
    loop
        invariant
            i <= 9,
            pos + i <= data@.len(),
            value == groups_value(data@.subrange(pos as int, pos + i)),
            scale == weight(i as nat),
            value < scale,
            forall|j: int| pos <= j < pos + i ==> #[trigger] data@[j] >= 128,
        decreases MAX_LEN - i,
    {
        proof {
            weight_of_last_group();
        }
        if i >= data.len() - pos {
            proof {
                varint_len_none(data@, pos as int, MAX_LEN as nat);
            }
            return Err(short_read(end));
        }
        let byte: u8 = data[pos + i];
        let ghost groups = data@.subrange(pos as int, pos + i);
        proof {
            groups_value_push(groups, byte);
            assert(groups.push(byte) =~= data@.subrange(pos as int, pos + i + 1));
            weight_grows(i as nat, 9);
        }
        if i == 9 && byte > 1 {
            proof {
                if byte >= 128 {
                    varint_len_none(data@, pos as int, MAX_LEN as nat);
                } else {
                    varint_len_at(data@, pos as int, MAX_LEN as nat, MAX_LEN as nat);
                    assert(weight(9) * (byte % 128) >= 2 * weight(9)) by (nonlinear_arith)
                        requires
                            byte % 128 >= 2,
                    ;
                }
            }
            return Err(invalid("varint overflows 64 bits".to_owned()));
        }
        let group: u64 = (byte % 128) as u64;
        proof {
            if i == 9 {
                assert(group * scale <= scale) by (nonlinear_arith)
                    requires
                        group <= 1,
                ;
            } else {
                weight_grows((i + 1) as nat, 9);
                assert(group * scale <= 127 * scale) by (nonlinear_arith)
                    requires
                        group <= 127,
                ;
                assert(weight((i + 1) as nat) == 128 * scale);
            }
            assert(group * scale == weight(i as nat) * (byte % 128)) by (nonlinear_arith)
                requires
                    group == byte % 128,
                    scale == weight(i as nat),
            ;
        }
        value = value + group * scale;
        if byte < 128 {
            proof {
                varint_len_at(data@, pos as int, (i + 1) as nat, MAX_LEN as nat);
            }
            return Ok((value, pos + i + 1));
        }
        scale = scale * 128;
        i = i + 1;
    }
}

/// A number below 128 is one byte. A larger one is its lowest seven bits, with the top bit set, and
/// then the number without them.
pub proof fn varint_is_written_low_first(low: u8, rest: nat)
    requires
        low < 128,
    ensures
        varint_bytes(low as nat) == seq![low],
        rest > 0 ==> varint_bytes(128 * rest + low as nat) == seq![(low + 128) as u8]
            + varint_bytes(rest),
{
    if rest > 0 {
        let value = 128 * rest + low as nat;
        assert(value % 128 == low && value / 128 == rest);
    }
}

/// Seven-bit groups, the lowest first.
pub proof fn groups_are_read_low_first(first: u8, rest: Seq<u8>)
    ensures
        groups_value(Seq::empty()) == 0,
        groups_value(seq![first] + rest) == (first % 128) + 128 * groups_value(rest),
{
    assert((seq![first] + rest).drop_first() =~= rest);
}

/// A number ends with the first byte whose top bit is clear, within ten bytes. It is what its
/// groups say, unless that is more than 64 bits hold.
pub proof fn varint_ends_with_a_clear_bit(data: Seq<u8>, end: StreamEnd, pos: int, len: nat)
    requires
        0 <= pos,
        1 <= len <= 10,
        pos + len <= data.len(),
        forall|j: int| pos <= j < pos + len - 1 ==> #[trigger] data[j] >= 128,
        data[pos + len - 1] < 128,
    ensures
        ({
            let value = groups_value(data.subrange(pos, pos + len));
            varint_at(data, end, pos) == if value <= 0xffff_ffff_ffff_ffff {
                Ok((value, pos + len))
            } else {
                Err(
                    error::ErrorModel {
                        kind: ErrorKind::InvalidData,
                        message: "varint overflows 64 bits"@,
                    },
                )
            }
        }),
{
    varint_len_at(data, pos, len, MAX_LEN as nat);
}

/// Where no byte ends it, a number is too long if there are ten bytes, and cut off if there are
/// fewer.
pub proof fn varint_without_an_end(data: Seq<u8>, end: StreamEnd, pos: int)
    requires
        0 <= pos,
        forall|j: int| pos <= j < pos + 10 && j < data.len() ==> #[trigger] data[j] >= 128,
    ensures
        varint_at(data, end, pos) is Err,
        pos + 10 <= data.len() ==> varint_at(data, end, pos)->Err_0.kind == ErrorKind::InvalidData,
        pos + 10 > data.len() ==> varint_at(data, end, pos)->Err_0.kind == match end {
            StreamEnd::Corrupt => ErrorKind::InvalidInput,
            _ => ErrorKind::UnexpectedEof,
        },
{
    varint_len_none(data, pos, MAX_LEN as nat);
}

/// What is said of a read that asks for more than there is, by what ended the source.
pub proof fn short_reads_by_the_end()
    ensures
        short_read_model(StreamEnd::Complete).kind is UnexpectedEof,
        short_read_model(StreamEnd::Complete).message == "failed to fill whole buffer"@,
        short_read_model(StreamEnd::Incomplete).kind is UnexpectedEof,
        short_read_model(StreamEnd::Incomplete).message == "incomplete deflate stream"@,
        short_read_model(StreamEnd::Corrupt).kind is InvalidInput,
        short_read_model(StreamEnd::Corrupt).message == "corrupt deflate stream"@,
{
}

} // verus!
