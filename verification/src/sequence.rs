//! Combinators that run one or two sub-parsers once: making a parser
//! optional, looking ahead, trying alternatives, and running one parser after
//! another.
//!
//! A sub-parser may answer differently from call to call as far as its own
//! contract lets it, so each combinator's contract speaks of an answer that the
//! sub-parser may give, and says what the combinator makes of that answer.

use crate::internal::{never_done, IResult};
use vstd::prelude::*;

verus! {

/// The answer of an optional parser on `input` whose sub-parser answered `r`:
/// a failure becomes an absent value with nothing consumed.
pub open spec fn opt_of<'a, O>(input: &'a [u8], r: IResult<&'a [u8], O>) -> IResult<
    &'a [u8],
    Option<O>,
> {
    match r {
        IResult::Done(i, o) => IResult::Done(i, Some(o)),
        IResult::Error(_) => IResult::Done(input, None),
        IResult::Incomplete(n) => IResult::Incomplete(n),
    }
}

/// The answer of a lookahead on `input` whose sub-parser answered `r`: a
/// success keeps the value and gives the whole input back.
pub open spec fn peek_of<'a, O>(input: &'a [u8], r: IResult<&'a [u8], O>) -> IResult<&'a [u8], O> {
    match r {
        IResult::Done(_, o) => IResult::Done(input, o),
        IResult::Error(e) => IResult::Error(e),
        IResult::Incomplete(n) => IResult::Incomplete(n),
    }
}

/// The answer of an alternative whose last branch answered `r`: a success as
/// it is, anything else as `Error(1)`.
pub open spec fn last_branch<'a, O>(r: IResult<&'a [u8], O>) -> IResult<&'a [u8], O> {
    if r is Done {
        r
    } else {
        IResult::Error(1)
    }
}

/// The answer of a pair of parsers that keeps the first value, when the first
/// has parsed `first` and the second then answered `second`.
pub open spec fn first_of<'a, A, B>(first: A, second: IResult<&'a [u8], B>) -> IResult<
    &'a [u8],
    A,
> {
    match second {
        IResult::Done(i, _) => IResult::Done(i, first),
        IResult::Error(e) => IResult::Error(e),
        IResult::Incomplete(n) => IResult::Incomplete(n),
    }
}

/// What `opt` answers: what `opt_of` makes of an answer of `f` on `input`.
pub open spec fn opt_post<'a, O, F>(
    f: F,
    input: &'a [u8],
    res: IResult<&'a [u8], Option<O>>,
) -> bool where F: FnOnce(&'a [u8]) -> IResult<&'a [u8], O> {
    exists|r: IResult<&'a [u8], O>| #[trigger] f.ensures((input,), r) && res == opt_of(input, r)
}

/// What `peek` answers: what `peek_of` makes of an answer of `f` on `input`.
pub open spec fn peek_post<'a, O, F>(
    f: F,
    input: &'a [u8],
    res: IResult<&'a [u8], O>,
) -> bool where F: FnOnce(&'a [u8]) -> IResult<&'a [u8], O> {
    exists|r: IResult<&'a [u8], O>| #[trigger] f.ensures((input,), r) && res == peek_of(input, r)
}

/// What `alt` answers: a success of `f` on `input`, or, after an answer of `f`
/// that is none, what `last_branch` makes of an answer of `g` on `input`.
pub open spec fn alt_post<'a, O, F, G>(
    f: F,
    g: G,
    input: &'a [u8],
    res: IResult<&'a [u8], O>,
) -> bool where
    F: FnOnce(&'a [u8]) -> IResult<&'a [u8], O>,
    G: FnOnce(&'a [u8]) -> IResult<&'a [u8], O>,
 {
    exists|rf: IResult<&'a [u8], O>| #[trigger]
        f.ensures((input,), rf) && if rf is Done {
            res == rf
        } else {
            exists|rg: IResult<&'a [u8], O>| #[trigger]
                g.ensures((input,), rg) && res == last_branch(rg)
        }
}

/// What `chain` answers: after a success of `p` on `input`, an answer of `k`
/// on what `p` left and parsed; else the failure of `p`.
pub open spec fn chain_post<'a, A, B, P, K>(
    p: P,
    k: K,
    input: &'a [u8],
    res: IResult<&'a [u8], B>,
) -> bool where
    P: FnOnce(&'a [u8]) -> IResult<&'a [u8], A>,
    K: FnOnce(&'a [u8], A) -> IResult<&'a [u8], B>,
 {
    exists|r: IResult<&'a [u8], A>| #[trigger]
        p.ensures((input,), r) && match r {
            IResult::Done(i, o) => k.ensures((i, o), res),
            IResult::Error(e) => res == IResult::<&'a [u8], B>::Error(e),
            IResult::Incomplete(n) => res == IResult::<&'a [u8], B>::Incomplete(n),
        }
}

/// What `chain_opt` answers: after a success of `p` on `input`, an answer of `k`
/// on what `p` left and the value present; after an `Error` of `p`, an answer
/// of `k` on `input` itself and the value absent; else `Incomplete` as `p`
/// gave it.
pub open spec fn chain_opt_post<'a, A, B, P, K>(
    p: P,
    k: K,
    input: &'a [u8],
    res: IResult<&'a [u8], B>,
) -> bool where
    P: FnOnce(&'a [u8]) -> IResult<&'a [u8], A>,
    K: FnOnce(&'a [u8], Option<A>) -> IResult<&'a [u8], B>,
 {
    exists|r: IResult<&'a [u8], A>| #[trigger]
        p.ensures((input,), r) && match r {
            IResult::Done(i, o) => k.ensures((i, Some(o)), res),
            IResult::Error(_) => k.ensures((input, None::<A>), res),
            IResult::Incomplete(n) => res == IResult::<&'a [u8], B>::Incomplete(n),
        }
}

/// What `keep_first` answers: after a success of `a` on `input`, what
/// `first_of` makes of an answer of `b` on what `a` left; else the failure of
/// `a`.
pub open spec fn keep_first_post<'a, A, B, F, G>(
    a: F,
    b: G,
    input: &'a [u8],
    res: IResult<&'a [u8], A>,
) -> bool where
    F: FnOnce(&'a [u8]) -> IResult<&'a [u8], A>,
    G: FnOnce(&'a [u8]) -> IResult<&'a [u8], B>,
 {
    exists|ra: IResult<&'a [u8], A>| #[trigger]
        a.ensures((input,), ra) && match ra {
            IResult::Done(i, first) => exists|rb: IResult<&'a [u8], B>| #[trigger]
                b.ensures((i,), rb) && res == first_of(first, rb),
            IResult::Error(e) => res == IResult::<&'a [u8], A>::Error(e),
            IResult::Incomplete(n) => res == IResult::<&'a [u8], A>::Incomplete(n),
        }
}

/// What `keep_second` answers: after a success of `a` on `input`, an answer
/// of `b` on what `a` left; else the failure of `a`.
pub open spec fn keep_second_post<'a, A, B, F, G>(
    a: F,
    b: G,
    input: &'a [u8],
    res: IResult<&'a [u8], B>,
) -> bool where
    F: FnOnce(&'a [u8]) -> IResult<&'a [u8], A>,
    G: FnOnce(&'a [u8]) -> IResult<&'a [u8], B>,
 {
    exists|ra: IResult<&'a [u8], A>| #[trigger]
        a.ensures((input,), ra) && match ra {
            IResult::Done(i, _) => b.ensures((i,), res),
            IResult::Error(e) => res == IResult::<&'a [u8], B>::Error(e),
            IResult::Incomplete(n) => res == IResult::<&'a [u8], B>::Incomplete(n),
        }
}

/// Makes `f` optional: its success is a present value, its `Error` an absent
/// value with the input untouched, its `Incomplete` remains.
pub fn opt<'a, O, F>(f: F, input: &'a [u8]) -> (res: IResult<&'a [u8], Option<O>>) where
    F: FnOnce(&'a [u8]) -> IResult<&'a [u8], O>,

    requires
        f.requires((input,)),
    ensures
        opt_post(f, input, res),
{
    let r = f(input);
    let ghost answer = r;
    let res = match r {
        IResult::Done(i, o) => IResult::Done(i, Some(o)),
        IResult::Error(_) => IResult::Done(input, None),
        IResult::Incomplete(n) => IResult::Incomplete(n),
    };
    assert(f.ensures((input,), answer) && res == opt_of(input, answer));
    res
}

/// Runs `f` without consuming: its success keeps the value and hands the
/// whole input back; its failures remain.
pub fn peek<'a, O, F>(f: F, input: &'a [u8]) -> (res: IResult<&'a [u8], O>) where
    F: FnOnce(&'a [u8]) -> IResult<&'a [u8], O>,

    requires
        f.requires((input,)),
    ensures
        peek_post(f, input, res),
        res matches IResult::Done(rest, _) ==> rest == input,
{
    let r = f(input);
    let ghost answer = r;
    let res = match r {
        IResult::Done(_, o) => IResult::Done(input, o),
        IResult::Error(a) => IResult::Error(a),
        IResult::Incomplete(n) => IResult::Incomplete(n),
    };
    assert(f.ensures((input,), answer) && res == peek_of(input, answer));
    res
}

/// Tries `f`, then `g`, on the same input; the first success wins.
///
/// `Error` and `Incomplete` alike send the search on to the next branch. With
/// no branch left the answer is `Error(1)`, whatever the branches answered.
pub fn alt<'a, O, F, G>(f: F, g: G, input: &'a [u8]) -> (res: IResult<&'a [u8], O>) where
    F: FnOnce(&'a [u8]) -> IResult<&'a [u8], O>,
    G: FnOnce(&'a [u8]) -> IResult<&'a [u8], O>,

    requires
        f.requires((input,)),
        forall|rf: IResult<&'a [u8], O>| #[trigger]
            f.ensures((input,), rf) && !(rf is Done) ==> g.requires((input,)),
    ensures
        alt_post(f, g, input, res),
        !(res is Incomplete),
{
    let rf = f(input);
    let ghost first = rf;
    match rf {
        IResult::Done(i, o) => {
            let res = IResult::Done(i, o);
            assert(f.ensures((input,), first) && res == first);
            res
        },
        _ => {
            let rg = g(input);
            let ghost second = rg;
            let res = match rg {
                IResult::Done(i, o) => IResult::Done(i, o),
                _ => IResult::Error(1),
            };
            assert(g.ensures((input,), second) && res == last_branch(second));
            assert(f.ensures((input,), first) && !(first is Done));
            res
        },
    }
}

/// One required step of a chain: runs `p`, and on success hands what it left
/// and what it parsed to `k`, which runs the steps that follow and in the end
/// assembles the values bound on the way.
///
/// A failure of `p` ends the chain and is the chain's answer.
pub fn chain<'a, A, B, P, K>(p: P, k: K, input: &'a [u8]) -> (res: IResult<&'a [u8], B>) where
    P: FnOnce(&'a [u8]) -> IResult<&'a [u8], A>,
    K: FnOnce(&'a [u8], A) -> IResult<&'a [u8], B>,

    requires
        p.requires((input,)),
        forall|i: &'a [u8], o: A| #[trigger]
            p.ensures((input,), IResult::Done(i, o)) ==> k.requires((i, o)),
    ensures
        chain_post(p, k, input, res),
{
    let r = p(input);
    let ghost answer = r;
    let res = match r {
        IResult::Error(e) => IResult::Error(e),
        IResult::Incomplete(n) => IResult::Incomplete(n),
        IResult::Done(i, o) => k(i, o),
    };
    assert(p.ensures((input,), answer));
    res
}

/// One optional step of a chain: as `chain`, but an `Error` of `p` is not the
/// end: `k` goes on from the same input with an absent value. `Incomplete`
/// still ends the chain.
pub fn chain_opt<'a, A, B, P, K>(p: P, k: K, input: &'a [u8]) -> (res: IResult<&'a [u8], B>) where
    P: FnOnce(&'a [u8]) -> IResult<&'a [u8], A>,
    K: FnOnce(&'a [u8], Option<A>) -> IResult<&'a [u8], B>,

    requires
        p.requires((input,)),
        forall|i: &'a [u8], o: A| #[trigger]
            p.ensures((input,), IResult::Done(i, o)) ==> k.requires((i, Some(o))),
        forall|e: u32| #[trigger]
            p.ensures((input,), IResult::<&'a [u8], A>::Error(e)) ==> k.requires(
                (input, None::<A>),
            ),
    ensures
        chain_opt_post(p, k, input, res),
{
    let r = p(input);
    let ghost answer = r;
    let res = match r {
        IResult::Incomplete(n) => IResult::Incomplete(n),
        IResult::Error(_e) => {
            assert(p.ensures((input,), IResult::<&'a [u8], A>::Error(_e)));
            k(input, None)
        },
        IResult::Done(i, o) => k(i, Some(o)),
    };
    assert(p.ensures((input,), answer));
    res
}

/// Runs `a`, then `b` on what `a` left, and keeps the value of `a`.
///
/// The first failure of either is the answer; the rest is what `b` left.
pub fn keep_first<'a, A, B, F, G>(a: F, b: G, input: &'a [u8]) -> (res: IResult<&'a [u8], A>) where
    F: FnOnce(&'a [u8]) -> IResult<&'a [u8], A>,
    G: FnOnce(&'a [u8]) -> IResult<&'a [u8], B>,

    requires
        a.requires((input,)),
        forall|i: &'a [u8], o: A| #[trigger]
            a.ensures((input,), IResult::Done(i, o)) ==> b.requires((i,)),
    ensures
        keep_first_post(a, b, input, res),
{
    let ra = a(input);
    let ghost first = ra;
    let res = match ra {
        IResult::Error(e) => IResult::Error(e),
        IResult::Incomplete(n) => IResult::Incomplete(n),
        IResult::Done(i, o) => {
            let rb = b(i);
            let ghost second = rb;
            let res = match rb {
                IResult::Error(e) => IResult::Error(e),
                IResult::Incomplete(n) => IResult::Incomplete(n),
                IResult::Done(i2, _) => IResult::Done(i2, o),
            };
            assert(b.ensures((i,), second) && res == first_of(o, second));
            res
        },
    };
    assert(a.ensures((input,), first));
    res
}

/// Runs `a`, then `b` on what `a` left, and keeps the value of `b`.
///
/// The first failure of either is the answer; the rest is what `b` left.
pub fn keep_second<'a, A, B, F, G>(a: F, b: G, input: &'a [u8]) -> (res: IResult<&'a [u8], B>) where
    F: FnOnce(&'a [u8]) -> IResult<&'a [u8], A>,
    G: FnOnce(&'a [u8]) -> IResult<&'a [u8], B>,

    requires
        a.requires((input,)),
        forall|i: &'a [u8], o: A| #[trigger]
            a.ensures((input,), IResult::Done(i, o)) ==> b.requires((i,)),
    ensures
        keep_second_post(a, b, input, res),
{
    let ra = a(input);
    let ghost first = ra;
    let res = match ra {
        IResult::Error(e) => IResult::Error(e),
        IResult::Incomplete(n) => IResult::Incomplete(n),
        IResult::Done(i, _first) => {
            assert(a.ensures((input,), IResult::Done(i, _first)));
            b(i)
        },
    };
    assert(a.ensures((input,), first));
    res
}

/// `f` answers `r` on `input` and nothing else.
pub open spec fn answers_only<'a, O, F>(
    f: F,
    input: &'a [u8],
    r: IResult<&'a [u8], O>,
) -> bool where F: FnOnce(&'a [u8]) -> IResult<&'a [u8], O> {
    forall|other: IResult<&'a [u8], O>| #[trigger] f.ensures((input,), other) ==> other == r
}

/// A lookahead that succeeds consumes nothing: its rest is its input.
pub proof fn lemma_peek_keeps_input<'a, O, F>(
    f: F,
    input: &'a [u8],
    res: IResult<&'a [u8], O>,
) where F: FnOnce(&'a [u8]) -> IResult<&'a [u8], O>
    requires
        peek_post(f, input, res),
    ensures
        res matches IResult::Done(rest, _) ==> rest == input,
{
}

/// An alternative whose first branch always fails and whose second answers
/// only `Done` with the value `x` answers `Done` with `x`.
pub proof fn lemma_alt_second_wins<'a, O, F, G>(
    f: F,
    g: G,
    input: &'a [u8],
    rest: &'a [u8],
    x: O,
    res: IResult<&'a [u8], O>,
) where F: FnOnce(&'a [u8]) -> IResult<&'a [u8], O>, G: FnOnce(&'a [u8]) -> IResult<&'a [u8], O>
    requires
        alt_post(f, g, input, res),
        never_done(f, input),
        answers_only(g, input, IResult::Done(rest, x)),
    ensures
        res == IResult::Done(rest, x),
{
}

/// An alternative whose branches all fail answers `Error(1)`.
pub proof fn lemma_alt_all_fail<'a, O, F, G>(
    f: F,
    g: G,
    input: &'a [u8],
    res: IResult<&'a [u8], O>,
) where
    F: FnOnce(&'a [u8]) -> IResult<&'a [u8], O>,
    G: FnOnce(&'a [u8]) -> IResult<&'a [u8], O>,

    requires
        alt_post(f, g, input, res),
        never_done(f, input),
        never_done(g, input),
    ensures
        res == IResult::<&'a [u8], O>::Error(1),
{
}

/// A required step that answers only `Done` hands what it left and what it
/// parsed to the steps that follow, and their answer is the chain's.
pub proof fn lemma_chain_step<'a, A, B, P, K>(
    p: P,
    k: K,
    input: &'a [u8],
    rest: &'a [u8],
    o: A,
    res: IResult<&'a [u8], B>,
) where
    P: FnOnce(&'a [u8]) -> IResult<&'a [u8], A>,
    K: FnOnce(&'a [u8], A) -> IResult<&'a [u8], B>,

    requires
        chain_post(p, k, input, res),
        answers_only(p, input, IResult::Done(rest, o)),
    ensures
        k.ensures((rest, o), res),
{
}

/// An optional step that only fails with `Error` is left out: the steps that
/// follow start on the same input with an absent value, and their answer is
/// the chain's.
pub proof fn lemma_chain_opt_absent<'a, A, B, P, K>(
    p: P,
    k: K,
    input: &'a [u8],
    res: IResult<&'a [u8], B>,
) where
    P: FnOnce(&'a [u8]) -> IResult<&'a [u8], A>,
    K: FnOnce(&'a [u8], Option<A>) -> IResult<&'a [u8], B>,

    requires
        chain_opt_post(p, k, input, res),
        forall|r: IResult<&'a [u8], A>| #[trigger] p.ensures((input,), r) ==> r is Error,
    ensures
        k.ensures((input, None::<A>), res),
{
}

} // verus!
