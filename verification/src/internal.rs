//! The result algebra shared by every parser and combinator.
//!
//! A parser is any callable from an input to an [`IResult`]. On bytes, the
//! input is a `&[u8]` and a successful parse hands back the rest of it.

use vstd::prelude::*;

verus! {

/// Code carried by a failed parse.
pub type ErrorCode = u32;

/// How much more input a stalled parse asks for.
#[derive(Debug, PartialEq, Eq, Clone, Copy)]
pub enum Needed {
    /// No estimate is available.
    Unknown,
    /// At least this many bytes.
    Size(usize),
}

impl Needed {
    /// The hint that stands for an estimate of `n` bytes: `Size(n)` where a
    /// `usize` can hold `n`, and `Unknown` where none can.
    pub open spec fn bytes(n: int) -> Needed {
        if 0 <= n <= usize::MAX {
            Needed::Size(n as usize)
        } else {
            Needed::Unknown
        }
    }
}

/// Outcome of running a parser on an input of type `I`, producing an `O`.
#[derive(Debug, PartialEq, Eq)]
#[verifier::ext_equal]
pub enum IResult<I, O> {
    /// Success: the unconsumed rest of the input, and the value parsed.
    Done(I, O),
    /// The input does not match.
    Error(ErrorCode),
    /// The input ends too early to decide.
    Incomplete(Needed),
}

impl<I: View, O: View> View for IResult<I, O> {
    type V = IResult<I::V, O::V>;

    open spec fn view(&self) -> IResult<I::V, O::V> {
        match *self {
            IResult::Done(i, o) => IResult::Done(i@, o@),
            IResult::Error(e) => IResult::Error(e),
            IResult::Incomplete(n) => IResult::Incomplete(n),
        }
    }
}

/// `rest` is what remains of `input` once some prefix of it is taken away.
pub open spec fn is_rest_of(rest: Seq<u8>, input: Seq<u8>) -> bool {
    rest.len() <= input.len() && rest == input.skip(input.len() - rest.len())
}

/// An answer on `input` that is `Done` leaves a rest of `input`.
pub open spec fn leaves_rest<O>(input: Seq<u8>, res: IResult<Seq<u8>, O>) -> bool {
    res matches IResult::Done(rest, _) ==> is_rest_of(rest, input)
}

/// A rest of a rest of `input` is a rest of `input`.
pub proof fn lemma_rest_of_rest(inner: Seq<u8>, middle: Seq<u8>, input: Seq<u8>)
    requires
        is_rest_of(inner, middle),
        is_rest_of(middle, input),
    ensures
        is_rest_of(inner, input),
{
    assert(inner =~= input.skip(input.len() - inner.len()));
}

/// `f` may be called on every rest of `input`.
pub open spec fn takes_rests<'a, O, F>(f: F, input: &'a [u8]) -> bool where
    F: Fn(&'a [u8]) -> IResult<&'a [u8], O>,
 {
    forall|s: &'a [u8]| is_rest_of(s@, input@) ==> #[trigger] f.requires((s,))
}

/// Whenever `f` answers `Done` on a rest of `input`, what it leaves is a rest
/// of what it was given.
pub open spec fn leaves_rests<'a, O, F>(f: F, input: &'a [u8]) -> bool where
    F: Fn(&'a [u8]) -> IResult<&'a [u8], O>,
 {
    forall|s: &'a [u8], r: &'a [u8], o: O|
        is_rest_of(s@, input@) && #[trigger] f.ensures((s,), IResult::Done(r, o)) ==> is_rest_of(
            r@,
            s@,
        )
}

/// Whenever `f` answers `Done` on a rest of `input` that is not empty, it has
/// consumed at least one byte.
pub open spec fn advances<'a, O, F>(f: F, input: &'a [u8]) -> bool where
    F: Fn(&'a [u8]) -> IResult<&'a [u8], O>,
 {
    forall|s: &'a [u8], r: &'a [u8], o: O|
        is_rest_of(s@, input@) && s@.len() > 0 && #[trigger] f.ensures((s,), IResult::Done(r, o))
            ==> r@.len() < s@.len()
}

/// `f` answers `Done` on `input` in no case.
pub open spec fn never_done<'a, O, F>(f: F, input: &'a [u8]) -> bool where
    F: FnOnce(&'a [u8]) -> IResult<&'a [u8], O>,
 {
    forall|r: IResult<&'a [u8], O>| #[trigger] f.ensures((input,), r) ==> !(r is Done)
}

} // verus!
