//! Data producers, and the driver that pushes what they yield through a
//! parser.
//!
//! A producer hands out the bytes of a stream chunk by chunk. The driver keeps
//! the bytes that no parse has consumed yet, appends each new chunk to them, and
//! runs the parser on all of it again.

use crate::internal::{ErrorCode, IResult};
use vstd::prelude::*;
use vstd::slice::slice_to_vec;

verus! {

/// What a producer has to say when asked for data.
#[derive(Debug, PartialEq, Eq)]
#[verifier::ext_equal]
pub enum ProducerState<O> {
    /// The last chunk of the stream; it may be empty.
    Eof(O),
    /// Nothing is there right now, more may come.
    Continue,
    /// A chunk, with more to follow.
    Data(O),
    /// Reading failed.
    ProducerError(ErrorCode),
}

impl<O: View> View for ProducerState<O> {
    type V = ProducerState<O::V>;

    open spec fn view(&self) -> ProducerState<O::V> {
        match *self {
            ProducerState::Eof(v) => ProducerState::Eof(v@),
            ProducerState::Continue => ProducerState::Continue,
            ProducerState::Data(v) => ProducerState::Data(v@),
            ProducerState::ProducerError(e) => ProducerState::ProducerError(e),
        }
    }
}

/// The bytes that the driver takes from `state` and goes on with: those of a
/// `Data`, and those of an `Eof` that is not empty. Every other state stops
/// it.
pub open spec fn fed(state: ProducerState<Seq<u8>>) -> Option<Seq<u8>> {
    match state {
        ProducerState::Data(v) => Some(v),
        ProducerState::Eof(v) => if v.len() > 0 {
            Some(v)
        } else {
            None
        },
        _ => None,
    }
}

/// A position to seek to.
#[derive(Debug, PartialEq, Eq, Clone, Copy)]
pub enum SeekFrom {
    /// So many bytes from the start.
    Start(u64),
    /// So many bytes from the end, backwards where negative.
    End(i64),
    /// So many bytes from the current position, backwards where negative.
    Current(i64),
}

/// The byte that `position` names in a stream of `len` bytes read up to
/// `index`, if it does not lie before the start.
pub open spec fn seek_target(index: int, len: int, position: SeekFrom) -> Option<int> {
    let target = match position {
        SeekFrom::Start(pos) => pos as int,
        SeekFrom::End(offset) => len + offset,
        SeekFrom::Current(offset) => index + offset,
    };
    if target < 0 {
        None
    } else {
        Some(target)
    }
}

/// A source of bytes that hands them out chunk by chunk.
pub trait Producer: Sized {
    /// Whether `produce` may yield `state` from here and leave the producer
    /// as `after`. A producer that says nothing of itself may yield anything.
    open spec fn yields(&self, state: ProducerState<Seq<u8>>, after: Self) -> bool {
        true
    }

    /// Whether the producer comes to an end, with `pending` as the bound.
    open spec fn bounded(&self) -> bool {
        false
    }

    /// Where the producer is bounded, a number that goes down with every
    /// state that a driver goes on after.
    open spec fn pending(&self) -> nat {
        0
    }

    /// Yields the next chunk, or says why there is none. The bytes are to be
    /// used before the producer is asked again.
    fn produce(&mut self) -> (state: ProducerState<&[u8]>)
        ensures
            old(self).yields(state@, *final(self)),
            old(self).bounded() && fed(state@) is Some ==> final(self).bounded(),
            old(self).bounded() && fed(state@) is Some ==> final(self).pending() < old(
                self,
            ).pending(),
    ;

    /// Moves to `position` and says where the producer then stands, or `None`
    /// where it cannot go there.
    fn seek(&mut self, position: SeekFrom) -> Option<u64>;
}

/// The state that one read into `buffer` comes to. `read` is the number of
/// bytes that arrived, or `None` where the read failed: a failure is
/// `ProducerError(0)`, no byte is the end of the stream, and else the bytes
/// that arrived are the chunk.
pub fn read_state<'a>(buffer: &'a [u8], read: Option<usize>) -> (state: ProducerState<&'a [u8]>)
    ensures
        state@ == match read {
            None => ProducerState::ProducerError(0),
            Some(n) => if n == 0 {
                ProducerState::Eof(Seq::<u8>::empty())
            } else if n <= buffer@.len() {
                ProducerState::Data(buffer@.take(n as int))
            } else {
                ProducerState::Data(buffer@)
            },
        },
{
    match read {
        None => ProducerState::ProducerError(0),
        Some(n) => {
            if n == 0 {
                ProducerState::Eof(&buffer[0..0])
            } else if n <= buffer.len() {
                ProducerState::Data(&buffer[0..n])
            } else {
                ProducerState::Data(buffer)
            }
        },
    }
}

/// Produces the bytes of a buffer that is already in memory, `chunk_size`
/// bytes at a time.
pub struct MemProducer<'x> {
    buffer: &'x [u8],
    chunk_size: usize,
    length: usize,
    index: usize,
}

impl<'x> MemProducer<'x> {
    #[verifier::type_invariant]
    spec fn inv(&self) -> bool {
        self.length == self.buffer@.len() && self.index <= self.length
    }

    /// The bytes to produce.
    pub closed spec fn buffer(&self) -> Seq<u8> {
        self.buffer@
    }

    /// The number of bytes handed out at once.
    pub closed spec fn chunk_size(&self) -> nat {
        self.chunk_size as nat
    }

    /// The number of bytes handed out so far.
    pub closed spec fn position(&self) -> nat {
        self.index as nat
    }

    /// The same buffer and chunk size, wherever the two producers stand.
    pub open spec fn same_source(&self, other: &Self) -> bool {
        self.buffer() == other.buffer() && self.chunk_size() == other.chunk_size()
    }

    /// A producer at the start of `buffer`.
    pub fn new(buffer: &'x [u8], chunk_size: usize) -> (p: MemProducer<'x>)
        ensures
            p.buffer() == buffer@,
            p.chunk_size() == chunk_size,
            p.position() == 0,
    {
        MemProducer { buffer: buffer, chunk_size: chunk_size, length: buffer.len(), index: 0 }
    }

    /// The state that `produce` yields from here: the next `chunk_size`
    /// bytes as `Data` while more than those are left, then what is left as
    /// `Eof`, then `ProducerError(0)`.
    pub open spec fn next_state(&self) -> ProducerState<Seq<u8>> {
        if self.position() + self.chunk_size() < self.buffer().len() {
            ProducerState::Data(
                self.buffer().subrange(
                    self.position() as int,
                    self.position() + self.chunk_size() as int,
                ),
            )
        } else if self.position() < self.buffer().len() {
            ProducerState::Eof(
                self.buffer().subrange(self.position() as int, self.buffer().len() as int),
            )
        } else {
            ProducerState::ProducerError(0)
        }
    }

    /// The position after `produce` from here.
    pub open spec fn next_position(&self) -> nat {
        if self.position() + self.chunk_size() < self.buffer().len() {
            self.position() + self.chunk_size()
        } else if self.position() < self.buffer().len() {
            self.buffer().len()
        } else {
            self.position()
        }
    }

    /// The position after a seek to `position` from here: the target, held to
    /// the end of the buffer; or `None` for a target before the start.
    pub open spec fn sought(&self, position: SeekFrom) -> Option<nat> {
        match seek_target(self.position() as int, self.buffer().len() as int, position) {
            None => None,
            Some(target) => if target > self.buffer().len() {
                Some(self.buffer().len())
            } else {
                Some(target as nat)
            },
        }
    }
}

impl<'x> Producer for MemProducer<'x> {
    /// `produce` yields `next_state` and moves to `next_position`, and nothing
    /// else.
    open spec fn yields(&self, state: ProducerState<Seq<u8>>, after: Self) -> bool {
        state == self.next_state() && after.position() == self.next_position()
            && after.same_source(self)
    }

    /// With chunks that are not empty, each one brings the end nearer.
    open spec fn bounded(&self) -> bool {
        self.chunk_size() > 0 && self.position() <= self.buffer().len()
    }

    /// The bytes not yet handed out.
    open spec fn pending(&self) -> nat {
        (self.buffer().len() - self.position()) as nat
    }

    /// Yields the next `chunk_size` bytes as `Data` while more than those
    /// are left, then what is left as `Eof`, then `ProducerError(0)` on every
    /// call.
    fn produce(&mut self) -> (state: ProducerState<&[u8]>)
        ensures
            final(self).position() <= final(self).buffer().len(),
    {
        proof {
            use_type_invariant(&*self);
        }
        if self.chunk_size < self.length - self.index {
            let new_index = self.index + self.chunk_size;
            let res = ProducerState::Data(&self.buffer[self.index..new_index]);
            self.index = new_index;
            res
        } else if self.index < self.length {
            let res = ProducerState::Eof(&self.buffer[self.index..self.length]);
            self.index = self.length;
            res
        } else {
            ProducerState::ProducerError(0)
        }
    }

    /// Moves to `position`, held to the end of the buffer. A target before the
    /// start moves nothing and yields `None`.
    fn seek(&mut self, position: SeekFrom) -> (at: Option<u64>)
        ensures
            final(self).same_source(old(self)),
            final(self).position() <= final(self).buffer().len(),
            match old(self).sought(position) {
                None => at is None && final(self).position() == old(self).position(),
                Some(target) => at == Some(target as u64) && final(self).position() == target,
            },
    {
        proof {
            use_type_invariant(&*self);
        }
        let target: i128 = match position {
            SeekFrom::Start(pos) => pos as i128,
            SeekFrom::End(offset) => self.length as i128 + offset as i128,
            SeekFrom::Current(offset) => self.index as i128 + offset as i128,
        };
        if target < 0 {
            None
        } else {
            if target > self.length as i128 {
                self.index = self.length;
            } else {
                self.index = target as usize;
            }
            Some(self.index as u64)
        }
    }
}

/// What the driver keeps of its buffer `all` once the parser has answered `r`
/// on it, and whether it goes on: a success leaves what the parser left,
/// `Incomplete` leaves all for the next round, and `Error` leaves all and
/// stops.
pub open spec fn settled<'b, O>(all: Seq<u8>, r: IResult<&'b [u8], O>) -> (Seq<u8>, bool) {
    match r {
        IResult::Done(i, _) => (i@, true),
        IResult::Incomplete(_) => (all, true),
        IResult::Error(_) => (all, false),
    }
}

/// What one round of the driver comes to, which holds the bytes `before` when
/// the producer yields `state`: whether it goes on, and with which bytes.
///
/// A state without bytes to take stops the driver as it stands. Else the bytes
/// are appended and the parser runs on all of them.
pub open spec fn round_post<O, F>(
    f: F,
    before: Seq<u8>,
    state: ProducerState<Seq<u8>>,
    after: Seq<u8>,
    go_on: bool,
) -> bool where F: for<'b> Fn(&'b [u8]) -> IResult<&'b [u8], O> {
    match fed(state) {
        None => after == before && !go_on,
        Some(chunk) => exists|all: &[u8], r: IResult<&[u8], O>|
            all@ == before + chunk && #[trigger] f.ensures((all,), r) && (after, go_on) == settled(
                all@,
                r,
            ),
    }
}

/// From the producer `start` and no bytes, the driver can go through `n`
/// rounds none of which stops it, and then hold the bytes `acc` with the
/// producer as `now`.
pub open spec fn drives<P: Producer, O, F>(
    f: F,
    start: P,
    n: nat,
    acc: Seq<u8>,
    now: P,
) -> bool where F: for<'b> Fn(&'b [u8]) -> IResult<&'b [u8], O>
    decreases n,
{
    if n == 0 {
        acc == Seq::<u8>::empty() && now == start
    } else {
        exists|before: Seq<u8>, at: P, state: ProducerState<Seq<u8>>|
            drives(f, start, (n - 1) as nat, before, at) && #[trigger] at.yields(state, now)
                && #[trigger] round_post(f, before, state, acc, true)
    }
}

/// What `pusher` comes to, from the producer `start` to the producer `end`:
/// some rounds that went on, then the round that stopped it and left
/// `leftover`.
pub open spec fn pusher_post<P: Producer, O, F>(
    f: F,
    start: P,
    end: P,
    leftover: Seq<u8>,
) -> bool where F: for<'b> Fn(&'b [u8]) -> IResult<&'b [u8], O> {
    exists|n: nat, before: Seq<u8>, at: P, state: ProducerState<Seq<u8>>|
        #[trigger] drives(f, start, n, before, at) && #[trigger] at.yields(state, end)
            && #[trigger] round_post(f, before, state, leftover, false)
}

/// One more round that goes on extends what the driver can go through.
pub proof fn lemma_drives_round<P: Producer, O, F>(
    f: F,
    start: P,
    n: nat,
    before: Seq<u8>,
    at: P,
    state: ProducerState<Seq<u8>>,
    acc: Seq<u8>,
    now: P,
) where F: for<'b> Fn(&'b [u8]) -> IResult<&'b [u8], O>
    requires
        drives(f, start, n, before, at),
        at.yields(state, now),
        round_post(f, before, state, acc, true),
    ensures
        drives(f, start, n + 1, acc, now),
{
    assert((n + 1 - 1) as nat == n);
}

/// A drive read from its end: with no round it stands at the start with no
/// bytes; with at least one, its last round went on from where the rounds
/// before it had come to.
pub proof fn lemma_drives_last<P: Producer, O, F>(
    f: F,
    start: P,
    n: nat,
    acc: Seq<u8>,
    now: P,
) where F: for<'b> Fn(&'b [u8]) -> IResult<&'b [u8], O>
    requires
        drives(f, start, n, acc, now),
    ensures
        n == 0 ==> acc == Seq::<u8>::empty() && now == start,
        n > 0 ==> exists|before: Seq<u8>, at: P, state: ProducerState<Seq<u8>>|
            drives(f, start, (n - 1) as nat, before, at) && #[trigger] at.yields(state, now)
                && #[trigger] round_post(f, before, state, acc, true),
{
}

/// One round of the driver: takes what the producer yielded into `acc`, runs
/// the parser `f` on all of `acc`, and keeps what the parser did not consume.
/// Says whether the driver is to go on.
pub fn push_round<O, F>(acc: &mut Vec<u8>, state: ProducerState<&[u8]>, f: &F) -> (go_on:
    bool) where F: for<'b> Fn(&'b [u8]) -> IResult<&'b [u8], O>
    requires
        forall|i: &[u8]| #[trigger] f.requires((i,)),
    ensures
        round_post(*f, old(acc)@, state@, final(acc)@, go_on),
{
    match state {
        ProducerState::Data(v) => {
            acc.extend_from_slice(v);
        },
        ProducerState::Eof(v) => {
            if v.len() == 0 {
                return false;
            }
            acc.extend_from_slice(v);
        },
        _ => {
            return false;
        },
    }
    assert(acc@ =~= old(acc)@ + fed(state@)->Some_0);
    let all = acc.as_slice();
    let r = f(all);
    let ghost answer = r;
    let kept: Option<Vec<u8>> = match r {
        IResult::Error(_) => {
            assert(f.ensures((all,), answer));
            return false;
        },
        IResult::Incomplete(_) => None,
        IResult::Done(i, _) => Some(slice_to_vec(i)),
    };
    assert(f.ensures((all,), answer));
    match kept {
        Some(rest) => {
            *acc = rest;
        },
        None => {},
    }
    true
}

/// Pushes what `producer` yields through the parser `f`, round by round, until
/// the producer yields a state without bytes to take or the parser fails.
/// Hands back the bytes that were left unconsumed.
///
/// Nothing else ends the rounds, so the producer has to be one that comes to
/// an end.
pub fn pusher<P: Producer, O, F>(producer: &mut P, f: F) -> (leftover: Vec<u8>) where
    F: for<'b> Fn(&'b [u8]) -> IResult<&'b [u8], O>,

    requires
        old(producer).bounded(),
        forall|i: &[u8]| #[trigger] f.requires((i,)),
    ensures
        pusher_post(f, *old(producer), *final(producer), leftover@),
{
    let mut acc: Vec<u8> = Vec::new();
    let ghost mut n: nat = 0;
    loop
        invariant
            producer.bounded(),
            forall|i: &[u8]| #[trigger] f.requires((i,)),
            drives(f, *old(producer), n, acc@, *producer),
        decreases producer.pending(),
    {
        let ghost before = acc@;
        let ghost at = *producer;
        let state = producer.produce();
        let ghost yielded = state@;
        let go_on = push_round(&mut acc, state, &f);
        proof {
            assert(at.yields(yielded, *producer));
            assert(round_post(f, before, yielded, acc@, go_on));
            if go_on {
                lemma_drives_round(f, *old(producer), n, before, at, yielded, acc@, *producer);
                n = n + 1;
            }
        }
        if !go_on {
            return acc;
        }
    }
}

} // verus!
