//! Reading a bzip2 multistream: streams that stand one behind the other,
//! each decoded on its own.

use crate::text::{chars_of, slice_of, string_of, texts};
use bzip2::{Error, Status};
use vstd::prelude::*;

verus! {

/// The decoder of `bzip2`. It is known by the bytes it has taken since it
/// was made and by the number of bytes it has handed out.
#[verifier::external_type_specification]
#[verifier::external_body]
pub struct ExDecompress(bzip2::Decompress);

/// How a step of the decoder ended.
#[derive(Clone, Copy, Debug, PartialEq, Eq)]
pub enum DecodeStatus {
    /// The step went well and the stream goes on.
    Running,
    /// The stream has ended.
    StreamEnd,
    /// The decoder lacks memory.
    MemNeeded,
}

/// Why a stream cannot be decoded.
#[derive(Clone, Copy, Debug, PartialEq, Eq)]
pub enum DecodeError {
    Sequence,
    Data,
    DataMagic,
    Param,
    /// The decoder lacks memory.
    Memory,
}

/// What a step of the decoder gives: how it ended, how many bytes of the
/// input it took, and the bytes it decoded.
pub struct Step {
    pub ret: Result<DecodeStatus, DecodeError>,
    pub taken: nat,
    pub out: Seq<u8>,
}

/// The bytes that a decoder has taken since it was made.
pub uninterp spec fn fed(data: bzip2::Decompress) -> Seq<u8>;

/// How many bytes a decoder has handed out since it was made.
pub uninterp spec fn made(data: bzip2::Decompress) -> nat;

/// What a step gives of a decoder that has taken the bytes `fed` and handed
/// out `made` bytes, when it is given `input` and room for `room` bytes,
/// where the decoder has the memory it asks for.
pub uninterp spec fn step_of(fed: Seq<u8>, made: nat, input: Seq<u8>, room: nat) -> Step;

/// The decoder `before` was given `input` and `room` to write to, the step
/// was `step` and came back with `r`, and left the decoder `after` and
/// `out` in place of `room`: the step took a first part of the input and
/// wrote what it decoded to the start of the room.
pub open spec fn stepped(
    step: Step,
    before: bzip2::Decompress,
    input: Seq<u8>,
    room: Seq<u8>,
    r: Result<DecodeStatus, DecodeError>,
    after: bzip2::Decompress,
    out: Seq<u8>,
) -> bool {
    &&& r == step.ret
    &&& step.taken <= input.len()
    &&& step.out.len() <= room.len()
    &&& fed(after) == fed(before) + input.take(step.taken as int)
    &&& made(after) == made(before) + step.out.len()
    &&& out.len() == room.len()
    &&& out.take(step.out.len() as int) == step.out
}

/// A decoder at the start of a stream.
///
/// Calls `bzip2::Decompress::new`.
#[verifier::external_body]
fn decoder_new() -> (r: bzip2::Decompress)
    ensures
        fed(r) == Seq::<u8>::empty(),
        made(r) == 0,
{
    bzip2::Decompress::new(false)
}

/// One step of the decoder: reads from `input` and writes what it decodes
/// to the start of `out`.
///
/// Calls `bzip2::Decompress::decompress`. Unless the decoder says that it
/// lacks memory, what the step gives depends on what the decoder has taken
/// and handed out so far, on the input and on the length of `out` alone,
/// and is named `step_of`.
#[verifier::external_body]
fn decoder_step(data: &mut bzip2::Decompress, input: &[u8], out: &mut Vec<u8>) -> (r: Result<
    DecodeStatus,
    DecodeError,
>)
    ensures
        r == Ok::<DecodeStatus, DecodeError>(DecodeStatus::MemNeeded) || stepped(
            step_of(fed(*old(data)), made(*old(data)), input@, old(out)@.len()),
            *old(data),
            input@,
            old(out)@,
            r,
            *final(data),
            final(out)@,
        ),
{
    match data.decompress(input, out) {
        Ok(Status::StreamEnd) => Ok(DecodeStatus::StreamEnd),
        Ok(Status::MemNeeded) => Ok(DecodeStatus::MemNeeded),
        Ok(_) => Ok(DecodeStatus::Running),
        Err(Error::Sequence) => Err(DecodeError::Sequence),
        Err(Error::Data) => Err(DecodeError::Data),
        Err(Error::DataMagic) => Err(DecodeError::DataMagic),
        Err(Error::Param) => Err(DecodeError::Param),
    }
}

/// How many bytes the decoder has taken since it was made.
///
/// Calls `bzip2::Decompress::total_in`.
#[verifier::external_body]
fn decoder_total_in(data: &bzip2::Decompress) -> (n: u64)
    ensures
        n == fed(*data).len(),
{
    data.total_in()
}

/// How many bytes the decoder has handed out since it was made.
///
/// Calls `bzip2::Decompress::total_out`.
#[verifier::external_body]
fn decoder_total_out(data: &bzip2::Decompress) -> (n: u64)
    ensures
        n == made(*data),
{
    data.total_out()
}

/// What a read does after a step of the decoder.
#[derive(Clone, Copy, Debug, PartialEq, Eq)]
pub enum ReadAction {
    /// The stream has ended: the read returns, and further reads give
    /// nothing.
    Finish,
    /// The read returns what it has.
    Return,
    /// Nothing was decoded yet and input is left: another step.
    Again,
}

/// What a read does after a step that ended with `status`, decoded `read`
/// bytes, and found the input at its end or not; `no_room` says that no
/// output was asked for.
pub open spec fn read_action(status: DecodeStatus, read: int, is_eof: bool, no_room: bool) -> ReadAction {
    if status == DecodeStatus::StreamEnd {
        ReadAction::Finish
    } else if read > 0 || is_eof || no_room {
        ReadAction::Return
    } else {
        ReadAction::Again
    }
}

/// What a read does after a step of the decoder.
pub fn after_step(status: DecodeStatus, read: usize, is_eof: bool, no_room: bool) -> (a: ReadAction)
    ensures
        a == read_action(status, read as int, is_eof, no_room),
{
    match status {
        DecodeStatus::StreamEnd => ReadAction::Finish,
        _ => if read > 0 || is_eof || no_room {
            ReadAction::Return
        } else {
            ReadAction::Again
        },
    }
}

/// How many bytes a step of the decoder took of the `left` bytes of input,
/// by the decoder's counts before and after the step: their difference, and
/// all that was left where the counts give no number in reach.
pub open spec fn taken(left: int, before_in: int, after_in: int) -> int {
    if after_in >= before_in && after_in - before_in <= left {
        after_in - before_in
    } else {
        left
    }
}

/// What a step of the decoder leads to.
#[derive(Clone, Copy, Debug, PartialEq, Eq)]
pub enum ReadOutcome {
    /// The read returns this.
    Done(Result<usize, DecodeError>),
    /// Another step is taken.
    Again,
}

/// Where a decoder of a multistream stands: the bytes of the multistream,
/// the cursor, what the decoder has taken and how much it has handed out,
/// whether the stream has ended, and whether the last step found no input
/// left.
pub struct DecoderModel {
    pub obj: Seq<u8>,
    pub pos: int,
    pub fed: Seq<u8>,
    pub made: nat,
    pub done: bool,
    pub is_eof: bool,
}

/// What a read gives: what it returns, where the decoder then stands, and
/// the bytes it has appended.
pub struct ReadEnd {
    pub result: Result<usize, DecodeError>,
    pub after: DecoderModel,
    pub out: Seq<u8>,
}

/// The bytes behind the cursor.
pub open spec fn input_of(m: DecoderModel) -> Seq<u8> {
    if 0 <= m.pos <= m.obj.len() {
        m.obj.skip(m.pos)
    } else {
        Seq::empty()
    }
}

/// How many bytes stand behind the cursor.
pub open spec fn bytes_left(m: DecoderModel) -> nat {
    input_of(m).len()
}

/// The decoder after one step on what stands behind the cursor, with room
/// for `room` bytes: the cursor moves on by the bytes that the step took.
pub open spec fn after_one(m: DecoderModel, room: usize) -> DecoderModel {
    let input = input_of(m);
    let step = step_of(m.fed, m.made, input, room as nat);
    DecoderModel {
        pos: m.pos + taken(input.len() as int, 0, step.taken as int),
        fed: m.fed + input.take(step.taken as int),
        made: m.made + step.out.len(),
        done: m.done || step.ret == Ok::<DecodeStatus, DecodeError>(DecodeStatus::StreamEnd),
        is_eof: input.len() == 0,
        ..m
    }
}

/// What a read for `room` bytes gives of a decoder whose stream has not
/// ended and that has the memory it asks for. The decoder takes steps on
/// what stands behind the cursor. A step that fails makes the read fail
/// with the same reason, and nothing is appended. Else the read returns
/// what the step decoded, unless the step decoded nothing while input was
/// left and some of it was taken: then another step is taken.
pub open spec fn read_from(m: DecoderModel, room: usize) -> ReadEnd
    decreases bytes_left(m),
{
    let input = input_of(m);
    let step = step_of(m.fed, m.made, input, room as nat);
    let after = after_one(m, room);
    match step.ret {
        Err(e) => ReadEnd { result: Err(e), after, out: Seq::empty() },
        Ok(status) => if read_action(status, step.out.len() as int, input.len() == 0, room == 0)
            == ReadAction::Again && m.pos < after.pos <= m.obj.len() {
            read_from(after, room)
        } else {
            ReadEnd { result: Ok(step.out.len() as usize), after, out: step.out }
        },
    }
}

/// What reading a stream to its end gives: the bytes of the stream, or why
/// it failed, and where the decoder then stands.
pub struct StreamEnd {
    pub result: Result<Seq<u8>, DecodeError>,
    pub after: DecoderModel,
}

/// How many bytes a read of a stream asks for.
pub open spec fn read_room() -> usize {
    65536
}

/// What reading the stream at the cursor to its end gives of a decoder
/// that has the memory it asks for; `idle` says that the read before left
/// the cursor where it was. Of a stream that has ended nothing is left.
/// Else reads are made: a read that fails makes the reading fail with the
/// same reason; else its bytes are kept, and the reading ends where the
/// stream has ended, where the read left the cursor and decoded nothing,
/// and where two reads in a row left the cursor.
pub open spec fn stream_from(m: DecoderModel, idle: bool) -> StreamEnd
    decreases bytes_left(m), (if idle {
        0nat
    } else {
        1nat
    }),
{
    if m.done {
        StreamEnd { result: Ok(Seq::empty()), after: m }
    } else {
        let read = read_from(m, read_room());
        let same = read.after.pos == m.pos;
        match read.result {
            Err(e) => StreamEnd { result: Err(e), after: read.after },
            Ok(n) => if read.after.done || (same && (n == 0 || idle)) || !(read.after.obj == m.obj
                && 0 <= m.pos <= read.after.pos <= m.obj.len()) {
                StreamEnd { result: Ok(read.out), after: read.after }
            } else {
                let rest = stream_from(read.after, same);
                StreamEnd {
                    result: match rest.result {
                        Ok(more) => Ok(read.out + more),
                        Err(e) => Err(e),
                    },
                    after: rest.after,
                }
            },
        }
    }
}

/// A read never moves the cursor back or behind the bytes, and leaves the
/// bytes as they are.
pub proof fn lemma_read_moves_on(m: DecoderModel, room: usize)
    requires
        0 <= m.pos <= m.obj.len(),
    ensures
        m.pos <= read_from(m, room).after.pos <= m.obj.len(),
        read_from(m, room).after.obj == m.obj,
    decreases bytes_left(m),
{
    let input = input_of(m);
    let step = step_of(m.fed, m.made, input, room as nat);
    let after = after_one(m, room);
    if let Ok(status) = step.ret {
        if read_action(status, step.out.len() as int, input.len() == 0, room == 0)
            == ReadAction::Again && m.pos < after.pos <= m.obj.len() {
            lemma_read_moves_on(after, room);
        }
    }
}

/// Decodes one stream after the other from bytes in memory.
pub struct BzDecoderMulti {
    /// The stream that is being decoded has ended.
    pub done: bool,
    /// The decoder of the stream.
    pub data: bzip2::Decompress,
    /// The bytes of the multistream.
    pub obj: Vec<u8>,
    /// How many of the bytes were read.
    pub pos: usize,
    /// The last step found no input left.
    pub is_eof: bool,
}

impl View for BzDecoderMulti {
    type V = DecoderModel;

    open spec fn view(&self) -> DecoderModel {
        DecoderModel {
            obj: self.obj@,
            pos: self.pos as int,
            fed: fed(self.data),
            made: made(self.data),
            done: self.done,
            is_eof: self.is_eof,
        }
    }
}

/// A vector of `n` zero bytes.
fn zeros(n: usize) -> (v: Vec<u8>)
    ensures
        v@.len() == n,
{
    let mut v: Vec<u8> = Vec::new();
    let mut i: usize = 0;
    while i < n
        invariant
            i <= n,
            v@.len() == i,
        decreases n - i,
    {
        v.push(0);
        i += 1;
    }
    v
}

impl BzDecoderMulti {
    /// The cursor stands in the bytes or at their end.
    pub open spec fn wf(&self) -> bool {
        self.pos <= self.obj@.len()
    }

    /// A decoder of the stream that starts at `offset` in `obj`, or at the
    /// end where `offset` lies behind it.
    pub fn new(obj: Vec<u8>, offset: usize) -> (d: BzDecoderMulti)
        ensures
            d.wf(),
            d@ == (DecoderModel {
                obj: obj@,
                pos: first_cursor(obj@.len(), offset) as int,
                fed: Seq::empty(),
                made: 0,
                done: false,
                is_eof: false,
            }),
    {
        let pos = if offset <= obj.len() {
            offset
        } else {
            obj.len()
        };
        BzDecoderMulti { done: false, data: decoder_new(), obj, pos, is_eof: false }
    }

    /// Makes the decoder ready for the stream that starts at the cursor.
    pub fn reset(&mut self)
        ensures
            final(self)@ == (DecoderModel {
                fed: Seq::empty(),
                made: 0,
                done: false,
                ..old(self)@
            }),
    {
        self.data = decoder_new();
        self.done = false;
    }

    /// How many bytes the decoder has taken of the stream it is in.
    pub fn in_bytes(&self) -> (n: usize)
        ensures
            n == (if self@.fed.len() <= usize::MAX {
                self@.fed.len() as usize
            } else {
                usize::MAX
            }),
    {
        let n = decoder_total_in(&self.data);
        if n <= usize::MAX as u64 {
            n as usize
        } else {
            usize::MAX
        }
    }

    /// What follows from a step of the decoder: `before_in` and `after_in`
    /// are the decoder's counts of the bytes it has taken before and after
    /// the step, `ret` is how the step ended, and `read` is how many bytes
    /// the step decoded. The cursor moves on by the bytes that the step
    /// took; the end of the stream is kept in mind; a lack of memory makes
    /// the read fail; and the read returns unless nothing was decoded while
    /// input is left and was taken.
    pub fn after_decode(
        &mut self,
        before_in: u64,
        after_in: u64,
        ret: Result<DecodeStatus, DecodeError>,
        read: usize,
        no_room: bool,
    ) -> (r: ReadOutcome)
        requires
            old(self).wf(),
        ensures
            final(self).wf(),
            final(self).obj == old(self).obj,
            final(self).is_eof == old(self).is_eof,
            final(self).data == old(self).data,
            final(self).pos == old(self).pos + taken(
                old(self).obj@.len() - old(self).pos,
                before_in as int,
                after_in as int,
            ),
            final(self).done == (old(self).done || ret == Ok::<DecodeStatus, DecodeError>(
                DecodeStatus::StreamEnd,
            )),
            r == (match ret {
                Err(e) => ReadOutcome::Done(Err(e)),
                Ok(DecodeStatus::MemNeeded) => ReadOutcome::Done(Err(DecodeError::Memory)),
                Ok(status) => if read_action(status, read as int, old(self).is_eof, no_room)
                    == ReadAction::Again && final(self).pos > old(self).pos {
                    ReadOutcome::Again
                } else {
                    ReadOutcome::Done(Ok(read))
                },
            }),
    {
        let left: usize = self.obj.len() - self.pos;
        let consumed: usize = if after_in >= before_in && after_in - before_in <= left as u64 {
            (after_in - before_in) as usize
        } else {
            left
        };
        self.pos = self.pos + consumed;
        let status = match ret {
            Ok(DecodeStatus::MemNeeded) => {
                return ReadOutcome::Done(Err(DecodeError::Memory));
            },
            Ok(status) => status,
            Err(e) => {
                return ReadOutcome::Done(Err(e));
            },
        };
        match after_step(status, read, self.is_eof, no_room) {
            ReadAction::Finish => {
                self.done = true;
                ReadOutcome::Done(Ok(read))
            },
            ReadAction::Return => ReadOutcome::Done(Ok(read)),
            ReadAction::Again => {
                if consumed == 0 {
                    ReadOutcome::Done(Ok(read))
                } else {
                    ReadOutcome::Again
                }
            },
        }
    }

    /// Decodes up to `room` bytes of the stream and appends them to `buf`;
    /// says how many were appended. After the end of the stream nothing is
    /// appended and nothing changes. Else the read is what `read_from`
    /// gives, unless the decoder lacks memory: that makes the read fail,
    /// and the decoder is made anew, since it cannot go on.
    pub fn read(&mut self, buf: &mut Vec<u8>, room: usize) -> (r: Result<usize, DecodeError>)
        requires
            old(self).wf(),
        ensures
            final(self).wf(),
            final(self).obj == old(self).obj,
            final(self).pos >= old(self).pos,
            old(self).done ==> r == Ok::<usize, DecodeError>(0) && final(buf)@ == old(buf)@
                && *final(self) == *old(self),
            !old(self).done ==> r == Err::<usize, DecodeError>(DecodeError::Memory) || (r
                == read_from(old(self)@, room).result && final(self)@ == read_from(
                old(self)@,
                room,
            ).after && final(buf)@ == old(buf)@ + read_from(old(self)@, room).out),
            final(buf)@.len() >= old(buf)@.len(),
            final(buf)@.take(old(buf)@.len() as int) == old(buf)@,
            r matches Ok(n) ==> n == final(buf)@.len() - old(buf)@.len(),
            r is Err ==> final(buf)@ == old(buf)@,
    {
        if self.done {
            return Ok(0);
        }
        loop
            invariant
                !old(self).done,
                !self.done,
                self.wf(),
                self.obj == old(self).obj,
                self.pos >= old(self).pos,
                buf@ == old(buf)@,
                read_from(self@, room) == read_from(old(self)@, room),
            decreases self.obj@.len() - self.pos,
        {
            let ghost m = self@;
            let input = vstd::slice::slice_subrange(self.obj.as_slice(), self.pos, self.obj.len());
            assert(input@ =~= input_of(m));
            self.is_eof = input.len() == 0;
            let before_in = decoder_total_in(&self.data);
            let before_out = decoder_total_out(&self.data);
            let mut out = zeros(room);
            let ret = decoder_step(&mut self.data, input, &mut out);
            let after_in = decoder_total_in(&self.data);
            let after_out = decoder_total_out(&self.data);
            let read: usize = if after_out >= before_out && after_out - before_out <= room as u64 {
                (after_out - before_out) as usize
            } else {
                0
            };
            out.truncate(read);
            let ghost step = step_of(m.fed, m.made, input@, room as nat);
            proof {
                if ret != Ok::<DecodeStatus, DecodeError>(DecodeStatus::MemNeeded) {
                    assert(input@.take(step.taken as int).len() == step.taken);
                    assert(after_in - before_in == step.taken);
                    assert(after_out - before_out == step.out.len());
                    assert(out@ =~= step.out);
                }
            }
            match self.after_decode(before_in, after_in, ret, read, room == 0) {
                ReadOutcome::Done(Ok(n)) => {
                    assert(self@ == after_one(m, room));
                    buf.append(&mut out);
                    assert(buf@.take(old(buf)@.len() as int) =~= old(buf)@);
                    return Ok(n);
                },
                ReadOutcome::Done(Err(e)) => {
                    assert(e != DecodeError::Memory ==> self@ == after_one(m, room));
                    assert(buf@ + Seq::<u8>::empty() =~= buf@);
                    assert(buf@.take(old(buf)@.len() as int) =~= old(buf)@);
                    match e {
                        DecodeError::Memory => {
                            self.data = decoder_new();
                        },
                        _ => {},
                    }
                    return Err(e);
                },
                ReadOutcome::Again => {
                    assert(self@ == after_one(m, room));
                },
            }
        }
    }
}

/// Where a reader of input of `len` bytes stands that is opened at
/// `offset`: there, or at the end where `offset` lies behind it.
pub open spec fn first_cursor(len: nat, offset: usize) -> usize {
    if offset <= len {
        offset
    } else {
        len as usize
    }
}

/// A decoder at the start of the stream that starts at `offset` in `obj`.
pub open spec fn opened(obj: Seq<u8>, offset: usize) -> DecoderModel {
    DecoderModel {
        obj,
        pos: first_cursor(obj.len(), offset) as int,
        fed: Seq::empty(),
        made: 0,
        done: false,
        is_eof: false,
    }
}

/// What a stream that was read stands for.
pub open spec fn stream_model(r: Result<Vec<u8>, DecodeError>) -> Result<Seq<u8>, DecodeError> {
    match r {
        Ok(bytes) => Ok(bytes@),
        Err(e) => Err(e),
    }
}

/// A bzip2 multistream in memory, read stream by stream.
pub struct BZipMultiStream {
    pub reader: BzDecoderMulti,
    /// The multistream is exhausted.
    pub done: bool,
    /// How many bytes of the multistream were read when the stream was last
    /// changed.
    pub bytes: usize,
}

impl BZipMultiStream {
    /// A reader at the start of `source`.
    pub fn new(source: Vec<u8>) -> (s: BZipMultiStream)
        ensures
            s.reader.wf(),
            !s.done,
            s.bytes == 0,
            s.reader@ == opened(source@, 0),
    {
        BZipMultiStream { reader: BzDecoderMulti::new(source, 0), done: false, bytes: 0 }
    }

    /// A reader of `source` at the stream that starts at `offset`.
    pub fn open(source: Vec<u8>, offset: usize) -> (s: BZipMultiStream)
        ensures
            s.reader.wf(),
            !s.done,
            s.bytes == first_cursor(source@.len(), offset),
            s.reader@ == opened(source@, offset),
    {
        let reader = BzDecoderMulti::new(source, offset);
        let bytes = reader.pos;
        BZipMultiStream { reader, done: false, bytes }
    }

    /// Whether the multistream is exhausted.
    pub fn done(&self) -> (b: bool)
        ensures
            b == self.done,
    {
        self.done
    }

    /// Goes on to the next stream: where the bytes are at their end the
    /// multistream is exhausted, else the decoder starts anew at the cursor.
    /// Says whether there is a next stream.
    pub fn cycle(&mut self) -> (more: bool)
        ensures
            more == !old(self).reader.is_eof,
            final(self).bytes == old(self).reader.pos,
            if old(self).reader.is_eof {
                final(self).done && final(self).reader == old(self).reader
            } else {
                final(self).done == old(self).done && final(self).reader@ == (DecoderModel {
                    fed: Seq::empty(),
                    made: 0,
                    done: false,
                    ..old(self).reader@
                })
            },
    {
        self.bytes = self.reader.pos;
        if self.reader.is_eof {
            self.done = true;
            false
        } else {
            self.reader.reset();
            true
        }
    }

    /// Decodes the stream at the cursor to its end, or as far as the bytes
    /// reach, and hands out what it holds: what `stream_from` gives, unless
    /// the decoder lacks memory, which makes the reading fail. Of a stream
    /// that has ended nothing is left: the decoder is not asked, the result
    /// is empty and nothing changes.
    pub fn read_stream(&mut self) -> (r: Result<Vec<u8>, DecodeError>)
        requires
            old(self).reader.wf(),
        ensures
            final(self).reader.wf(),
            final(self).reader.obj == old(self).reader.obj,
            final(self).reader.pos >= old(self).reader.pos,
            final(self).done == old(self).done,
            final(self).bytes == old(self).bytes,
            old(self).reader.done ==> *final(self) == *old(self),
            old(self).reader.done ==> (r matches Ok(bytes) && bytes@.len() == 0),
            r == Err::<Vec<u8>, DecodeError>(DecodeError::Memory) || (stream_model(r)
                == stream_from(old(self).reader@, false).result && final(self).reader@
                == stream_from(old(self).reader@, false).after),
    {
        let mut out: Vec<u8> = Vec::new();
        let mut idle: bool = false;
        if self.reader.done {
            return Ok(out);
        }
        let ghost whole = stream_from(self.reader@, false);
        assert(out@ + whole.result->Ok_0 =~= whole.result->Ok_0);
        loop
            invariant
                self.reader.wf(),
                self.reader.obj == old(self).reader.obj,
                self.reader.pos >= old(self).reader.pos,
                self.done == old(self).done,
                self.bytes == old(self).bytes,
                !old(self).reader.done,
                !self.reader.done,
                whole == stream_from(old(self).reader@, false),
                whole.after == stream_from(self.reader@, idle).after,
                whole.result == (match stream_from(self.reader@, idle).result {
                    Ok(more) => Ok(out@ + more),
                    Err(e) => Err(e),
                }),
            decreases self.reader.obj@.len() - self.reader.pos, (if idle {
                0nat
            } else {
                1nat
            }),
        {
            let ghost m = self.reader@;
            let ghost held = out@;
            let before = self.reader.pos;
            proof {
                lemma_read_moves_on(m, read_room());
            }
            let n = match self.reader.read(&mut out, 65536) {
                Ok(n) => n,
                Err(e) => {
                    return Err(e);
                },
            };
            let same = self.reader.pos == before;
            if self.reader.done || (same && (n == 0 || idle)) {
                assert(out@ =~= held + read_from(m, read_room()).out);
                return Ok(out);
            }
            proof {
                let read = read_from(m, read_room());
                let rest = stream_from(read.after, same);
                if rest.result is Ok {
                    assert(held + (read.out + rest.result->Ok_0) =~= out@ + rest.result->Ok_0);
                }
            }
            idle = same;
        }
    }
}

/// The lines of a text, one after the other.
pub struct LineView {
    pub buf: Vec<char>,
    /// How many characters were read.
    pub pos: usize,
}

/// Where the line that starts at `from` ends: at the next line feed, or at
/// the end of the text.
pub open spec fn line_end(text: Seq<char>, from: int) -> int
    decreases text.len() - from,
{
    if from < 0 || from >= text.len() || text[from] == '\n' {
        from
    } else {
        line_end(text, from + 1)
    }
}

/// A line without the carriage return before its line feed.
pub open spec fn without_return(line: Seq<char>, ended: bool) -> Seq<char> {
    if ended && line.len() > 0 && line.last() == '\r' {
        line.drop_last()
    } else {
        line
    }
}

/// The line that starts at `from`: what stands before the next line feed,
/// without a carriage return before it; a last line without a line feed is
/// kept as it is.
pub open spec fn line_at(text: Seq<char>, from: int) -> Seq<char> {
    let end = line_end(text, from);
    without_return(text.subrange(from, end), end < text.len())
}

/// The lines of a text from `from` on.
pub open spec fn lines_from(text: Seq<char>, from: int) -> Seq<Seq<char>>
    decreases text.len() - from,
{
    if from < 0 || from >= text.len() {
        Seq::empty()
    } else {
        let end = line_end(text, from);
        if from <= end < text.len() {
            seq![line_at(text, from)] + lines_from(text, end + 1)
        } else {
            seq![line_at(text, from)]
        }
    }
}

/// A line ends at or after its start, and in the text.
pub proof fn lemma_line_end(text: Seq<char>, from: int)
    requires
        0 <= from <= text.len(),
    ensures
        from <= line_end(text, from) <= text.len(),
    decreases text.len() - from,
{
    if from < text.len() && text[from] != '\n' {
        lemma_line_end(text, from + 1);
    }
}

impl LineView {
    /// The view has not read behind the end of its text.
    pub open spec fn wf(&self) -> bool {
        self.pos <= self.buf@.len()
    }

    /// The lines of `buf`, from its start.
    pub fn from_buf(buf: &str) -> (v: LineView)
        ensures
            v.wf(),
            v.buf@ == buf@,
            v.pos == 0,
    {
        LineView { buf: chars_of(buf), pos: 0 }
    }

    /// The next line, if the text has not ended.
    pub fn next(&mut self) -> (r: Option<String>)
        requires
            old(self).wf(),
        ensures
            final(self).wf(),
            final(self).buf == old(self).buf,
            old(self).pos >= old(self).buf@.len() ==> r is None && final(self).pos == old(self).pos,
            old(self).pos < old(self).buf@.len() ==> (r matches Some(line) && line@ == line_at(
                old(self).buf@,
                old(self).pos as int,
            ) && final(self).pos > old(self).pos && lines_from(
                old(self).buf@,
                old(self).pos as int,
            ) == seq![line@] + lines_from(old(self).buf@, final(self).pos as int)),
    {
        if self.pos >= self.buf.len() {
            return None;
        }
        let start = self.pos;
        let mut end: usize = start;
        while end < self.buf.len() && self.buf[end] != '\n'
            invariant
                start <= end <= self.buf@.len(),
                line_end(self.buf@, start as int) == line_end(self.buf@, end as int),
            decreases self.buf.len() - end,
        {
            end += 1;
        }
        let ended = end < self.buf.len();
        let stop = if ended && end > start && self.buf[end - 1] == '\r' {
            end - 1
        } else {
            end
        };
        let line = slice_of(&self.buf, start, stop);
        proof {
            let whole = self.buf@.subrange(start as int, end as int);
            if stop < end {
                assert(whole.last() == self.buf@[end - 1]);
                assert(whole.drop_last() =~= self.buf@.subrange(start as int, stop as int));
            } else if ended && whole.len() > 0 {
                assert(whole.last() == self.buf@[end - 1]);
            }
            lemma_line_end(self.buf@, start as int);
            if !ended {
                assert(lines_from(self.buf@, end as int) =~= Seq::<Seq<char>>::empty());
                assert(seq![line@] + Seq::<Seq<char>>::empty() =~= seq![line@]);
            }
        }
        self.pos = if ended {
            end + 1
        } else {
            end
        };
        Some(string_of(&line))
    }

    /// All lines that are left.
    pub fn collect(&mut self) -> (r: Vec<String>)
        requires
            old(self).wf(),
        ensures
            texts(r@) == lines_from(old(self).buf@, old(self).pos as int),
    {
        let mut out: Vec<String> = Vec::new();
        assert(texts(out@) =~= Seq::empty());
        loop
            invariant
                self.wf(),
                self.buf == old(self).buf,
                lines_from(old(self).buf@, old(self).pos as int) == texts(out@)
                    + lines_from(self.buf@, self.pos as int),
            decreases self.buf@.len() - self.pos,
        {
            let ghost before = out@;
            let ghost from = self.pos as int;
            match self.next() {
                Some(line) => {
                    out.push(line);
                    assert(texts(out@) =~= texts(
                        before,
                    ).push(line@));
                    assert(texts(before) + (seq![line@] + lines_from(
                        self.buf@,
                        self.pos as int,
                    )) =~= texts(out@) + lines_from(
                        self.buf@,
                        self.pos as int,
                    ));
                },
                None => {
                    assert(lines_from(self.buf@, from) =~= Seq::<Seq<char>>::empty());
                    assert(texts(out@) + Seq::<Seq<char>>::empty()
                        =~= texts(out@));
                    return out;
                },
            }
        }
    }
}

} // verus!
