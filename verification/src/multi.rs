//! Repetition: a sub-parser applied again and again from where the last
//! success stopped.

use crate::internal::{
    advances, is_rest_of, leaves_rests, lemma_rest_of_rest, never_done, takes_rests, IResult,
    Needed,
};
use vstd::prelude::*;

verus! {

/// `f`, applied again and again starting on `input`, can answer `Done` with
/// the values `vs` in turn and leave `rest` after the last of them.
pub open spec fn repeats<'a, O, F>(f: F, input: &'a [u8], vs: Seq<O>, rest: &'a [u8]) -> bool where
    F: Fn(&'a [u8]) -> IResult<&'a [u8], O>,

    decreases vs.len(),
{
    if vs.len() == 0 {
        rest == input
    } else {
        exists|prev: &'a [u8]|
            repeats(f, input, vs.drop_last(), prev) && #[trigger] f.ensures(
                (prev,),
                IResult::Done(rest, vs.last()),
            )
    }
}

/// One more success extends a repetition by its value.
pub proof fn lemma_repeats_push<'a, O, F>(
    f: F,
    input: &'a [u8],
    vs: Seq<O>,
    prev: &'a [u8],
    rest: &'a [u8],
    o: O,
) where F: Fn(&'a [u8]) -> IResult<&'a [u8], O>
    requires
        repeats(f, input, vs, prev),
        f.ensures((prev,), IResult::Done(rest, o)),
    ensures
        repeats(f, input, vs.push(o), rest),
{
    let vs2 = vs.push(o);
    assert(vs2.drop_last() =~= vs);
    assert(vs2.last() == o);
    assert(repeats(f, input, vs2.drop_last(), prev));
}

/// A repetition ends on `rest` after `n` successes: either a success used up
/// the input, or `f` may answer something other than `Done` on `rest`.
pub open spec fn stops<'a, O, F>(f: F, n: nat, rest: &'a [u8]) -> bool where
    F: Fn(&'a [u8]) -> IResult<&'a [u8], O>,
 {
    ||| n > 0 && rest@.len() == 0
    ||| exists|r: IResult<&'a [u8], O>| #[trigger] f.ensures((rest,), r) && !(r is Done)
}

/// What `many0` answers: always `Done`, with the values of a repetition that
/// stops on the rest it hands back.
pub open spec fn many0_post<'a, O, F>(
    f: F,
    input: &'a [u8],
    res: IResult<&'a [u8], Vec<O>>,
) -> bool where F: Fn(&'a [u8]) -> IResult<&'a [u8], O> {
    res matches IResult::Done(rest, vs) && repeats(f, input, vs@, rest) && stops(
        f,
        vs@.len(),
        rest,
    )
}

/// What `many1` answers: `Done` as `many0` would with at least one value, or
/// `Error(0)` where `f` may answer something other than `Done` on `input`.
pub open spec fn many1_post<'a, O, F>(
    f: F,
    input: &'a [u8],
    res: IResult<&'a [u8], Vec<O>>,
) -> bool where F: Fn(&'a [u8]) -> IResult<&'a [u8], O> {
    match res {
        IResult::Done(rest, vs) => vs@.len() > 0 && repeats(f, input, vs@, rest) && stops(
            f,
            vs@.len(),
            rest,
        ),
        IResult::Error(e) => e == 0 && stops(f, 0, input),
        IResult::Incomplete(_) => false,
    }
}

/// Applies `f` zero or more times and collects what it parsed.
///
/// Each success moves on by the bytes it consumed. The first answer that is
/// not `Done` ends the repetition where the last success stopped, as does a
/// success that uses up the input.
///
/// `f` has to leave a rest of what it is given, and a shorter one where there
/// was anything to consume: a success that consumes nothing would be repeated
/// without end.
pub fn many0<'a, O, F>(f: F, input: &'a [u8]) -> (res: IResult<&'a [u8], Vec<O>>) where
    F: Fn(&'a [u8]) -> IResult<&'a [u8], O>,

    requires
        takes_rests(f, input),
        leaves_rests(f, input),
        advances(f, input),
    ensures
        many0_post(f, input, res),
        res matches IResult::Done(rest, vs) && is_rest_of(rest@, input@),
{
    let len = input.len();
    let mut begin: usize = 0;
    let mut remaining: usize = len;
    let mut rest: &'a [u8] = input;
    let mut res: Vec<O> = Vec::new();
    assert(input@.skip(0) =~= input@);
    loop
        invariant
            len == input@.len(),
            begin <= len,
            remaining == len - begin,
            rest@ == input@.skip(begin as int),
            takes_rests(f, input),
            leaves_rests(f, input),
            advances(f, input),
            repeats(f, input, res@, rest),
        decreases len - begin,
    {
        assert(is_rest_of(rest@, input@));
        let r = f(rest);
        match r {
            IResult::Done(i, o) => {
                let ghost before = res@;
                res.push(o);
                begin = begin + (remaining - i.len());
                remaining = i.len();
                proof {
                    lemma_repeats_push(f, input, before, rest, i, o);
                    assert(i@ =~= input@.skip(begin as int));
                }
                if begin >= len {
                    return IResult::Done(i, res);
                }
                rest = &input[begin..len];
                assert(rest =~= i);
            },
            _ => {
                assert(f.ensures((rest,), r) && !(r is Done));
                return IResult::Done(rest, res);
            },
        }
    }
}

/// Applies `f` one or more times and collects what it parsed.
///
/// As `many0`, but where not even the first attempt succeeds the whole
/// repetition fails with `Error(0)`.
pub fn many1<'a, O, F>(f: F, input: &'a [u8]) -> (res: IResult<&'a [u8], Vec<O>>) where
    F: Fn(&'a [u8]) -> IResult<&'a [u8], O>,

    requires
        takes_rests(f, input),
        leaves_rests(f, input),
        advances(f, input),
    ensures
        many1_post(f, input, res),
        res matches IResult::Done(rest, vs) ==> is_rest_of(rest@, input@),
{
    match many0(f, input) {
        IResult::Done(rest, vs) => {
            if vs.len() == 0 {
                IResult::Error(0)
            } else {
                IResult::Done(rest, vs)
            }
        },
        IResult::Error(e) => IResult::Error(e),
        IResult::Incomplete(n) => IResult::Incomplete(n),
    }
}

/// A repetition read from its front: with no value it leaves the input as it
/// is; with at least one it starts with a success on the input itself, and
/// what that success left is where the repetition of the other values starts.
pub proof fn lemma_repeats_front<'a, O, F>(f: F, input: &'a [u8], vs: Seq<O>, rest: &'a [u8]) where
    F: Fn(&'a [u8]) -> IResult<&'a [u8], O>,

    requires
        repeats(f, input, vs, rest),
    ensures
        vs.len() == 0 ==> rest == input,
        vs.len() > 0 ==> exists|mid: &'a [u8]| #[trigger]
            f.ensures((input,), IResult::Done(mid, vs[0])) && repeats(f, mid, vs.skip(1), rest),
    decreases vs.len(),
{
    if vs.len() > 0 {
        let prev = choose|prev: &'a [u8]|
            repeats(f, input, vs.drop_last(), prev) && #[trigger] f.ensures(
                (prev,),
                IResult::Done(rest, vs.last()),
            );
        lemma_repeats_front(f, input, vs.drop_last(), prev);
        if vs.len() == 1 {
            assert(f.ensures((input,), IResult::Done(rest, vs[0])));
            assert(repeats(f, rest, vs.skip(1), rest));
        } else {
            let mid = choose|mid: &'a [u8]| #[trigger]
                f.ensures((input,), IResult::Done(mid, vs.drop_last()[0])) && repeats(
                    f,
                    mid,
                    vs.drop_last().skip(1),
                    prev,
                );
            lemma_repeats_push(f, mid, vs.drop_last().skip(1), prev, rest, vs.last());
            assert(vs.drop_last().skip(1).push(vs.last()) =~= vs.skip(1));
            assert(vs.drop_last()[0] == vs[0]);
            assert(f.ensures((input,), IResult::Done(mid, vs[0])) && repeats(
                f,
                mid,
                vs.skip(1),
                rest,
            ));
        }
    }
}

/// On an input on which `f` never succeeds, zero-or-more repetition hands the
/// input back with no value, and one-or-more repetition fails.
pub proof fn lemma_no_match<'a, O, F>(
    f: F,
    input: &'a [u8],
    zero_or_more: IResult<&'a [u8], Vec<O>>,
    one_or_more: IResult<&'a [u8], Vec<O>>,
) where F: Fn(&'a [u8]) -> IResult<&'a [u8], O>
    requires
        never_done(f, input),
        many0_post(f, input, zero_or_more),
        many1_post(f, input, one_or_more),
    ensures
        zero_or_more matches IResult::Done(rest, vs) && rest == input && vs@.len() == 0,
        one_or_more == IResult::<&'a [u8], Vec<O>>::Error(0),
{
    if let IResult::Done(rest, vs) = zero_or_more {
        if vs@.len() > 0 {
            lemma_repeats_front(f, input, vs@, rest);
        }
    }
    if let IResult::Done(rest, vs) = one_or_more {
        lemma_repeats_front(f, input, vs@, rest);
    }
}

/// `f`, applied again and again starting on `input`, can succeed `n` times
/// and leave `rest`, while `g` folds the values parsed into `z` one after the
/// other and arrives at `acc`.
pub open spec fn folds<'a, O, A, F, G>(
    f: F,
    g: G,
    input: &'a [u8],
    z: A,
    n: nat,
    acc: A,
    rest: &'a [u8],
) -> bool where F: Fn(&'a [u8]) -> IResult<&'a [u8], O>, G: Fn(A, O) -> A
    decreases n,
{
    if n == 0 {
        rest == input && acc == z
    } else {
        exists|prev: &'a [u8], before: A, o: O|
            folds(f, g, input, z, (n - 1) as nat, before, prev) && #[trigger] f.ensures(
                (prev,),
                IResult::Done(rest, o),
            ) && #[trigger] g.ensures((before, o), acc)
    }
}

/// What `fold0` answers: always `Done`, with the accumulator of a fold that
/// stops on the rest it hands back.
pub open spec fn fold0_post<'a, O, A, F, G>(
    f: F,
    g: G,
    input: &'a [u8],
    z: A,
    res: IResult<&'a [u8], A>,
) -> bool where F: Fn(&'a [u8]) -> IResult<&'a [u8], O>, G: Fn(A, O) -> A {
    res matches IResult::Done(rest, acc) && exists|n: nat|
        #[trigger] folds(f, g, input, z, n, acc, rest) && stops(f, n, rest)
}

/// What `fold1` answers: `Done` as `fold0` would after at least one success,
/// or `Error(0)` where `f` may answer something other than `Done` on `input`.
pub open spec fn fold1_post<'a, O, A, F, G>(
    f: F,
    g: G,
    input: &'a [u8],
    z: A,
    res: IResult<&'a [u8], A>,
) -> bool where F: Fn(&'a [u8]) -> IResult<&'a [u8], O>, G: Fn(A, O) -> A {
    match res {
        IResult::Done(rest, acc) => exists|n: nat|
            n > 0 && #[trigger] folds(f, g, input, z, n, acc, rest) && stops(f, n, rest),
        IResult::Error(e) => e == 0 && stops(f, 0, input),
        IResult::Incomplete(_) => false,
    }
}

/// One more success extends a fold by one step of `g`.
pub proof fn lemma_folds_step<'a, O, A, F, G>(
    f: F,
    g: G,
    input: &'a [u8],
    z: A,
    n: nat,
    before: A,
    prev: &'a [u8],
    o: O,
    acc: A,
    rest: &'a [u8],
) where F: Fn(&'a [u8]) -> IResult<&'a [u8], O>, G: Fn(A, O) -> A
    requires
        folds(f, g, input, z, n, before, prev),
        f.ensures((prev,), IResult::Done(rest, o)),
        g.ensures((before, o), acc),
    ensures
        folds(f, g, input, z, n + 1, acc, rest),
{
    assert((n + 1 - 1) as nat == n);
}

/// A fold read from its front: with no success it leaves the input and the
/// seed as they are; with at least one it starts with a success on the input
/// itself, whose value `g` folds into the seed, and goes on from there.
pub proof fn lemma_folds_front<'a, O, A, F, G>(
    f: F,
    g: G,
    input: &'a [u8],
    z: A,
    n: nat,
    acc: A,
    rest: &'a [u8],
) where F: Fn(&'a [u8]) -> IResult<&'a [u8], O>, G: Fn(A, O) -> A
    requires
        folds(f, g, input, z, n, acc, rest),
    ensures
        n == 0 ==> rest == input && acc == z,
        n > 0 ==> exists|mid: &'a [u8], o: O, seed: A|
            #[trigger] f.ensures((input,), IResult::Done(mid, o)) && #[trigger] g.ensures(
                (z, o),
                seed,
            ) && folds(f, g, mid, seed, (n - 1) as nat, acc, rest),
    decreases n,
{
    if n > 0 {
        let (prev, before, last) = choose|prev: &'a [u8], before: A, last: O|
            folds(f, g, input, z, (n - 1) as nat, before, prev) && #[trigger] f.ensures(
                (prev,),
                IResult::Done(rest, last),
            ) && #[trigger] g.ensures((before, last), acc);
        lemma_folds_front(f, g, input, z, (n - 1) as nat, before, prev);
        if n == 1 {
            assert(f.ensures((input,), IResult::Done(rest, last)) && g.ensures((z, last), acc)
                && folds(f, g, rest, acc, 0, acc, rest));
        } else {
            let (mid, o, seed) = choose|mid: &'a [u8], o: O, seed: A|
                #[trigger] f.ensures((input,), IResult::Done(mid, o)) && #[trigger] g.ensures(
                    (z, o),
                    seed,
                ) && folds(f, g, mid, seed, (n - 2) as nat, before, prev);
            lemma_folds_step(f, g, mid, seed, (n - 2) as nat, before, prev, last, acc, rest);
            assert(f.ensures((input,), IResult::Done(mid, o)) && g.ensures((z, o), seed) && folds(
                f,
                g,
                mid,
                seed,
                (n - 1) as nat,
                acc,
                rest,
            ));
        }
    }
}

/// On an input on which `f` never succeeds, the fold over zero or more
/// successes hands the input and the seed back, and the fold over one or more
/// fails.
pub proof fn lemma_fold_no_match<'a, O, A, F, G>(
    f: F,
    g: G,
    input: &'a [u8],
    z: A,
    zero_or_more: IResult<&'a [u8], A>,
    one_or_more: IResult<&'a [u8], A>,
) where F: Fn(&'a [u8]) -> IResult<&'a [u8], O>, G: Fn(A, O) -> A
    requires
        never_done(f, input),
        fold0_post(f, g, input, z, zero_or_more),
        fold1_post(f, g, input, z, one_or_more),
    ensures
        zero_or_more == IResult::Done(input, z),
        one_or_more == IResult::<&'a [u8], A>::Error(0),
{
    if let IResult::Done(rest, acc) = zero_or_more {
        let n = choose|n: nat| #[trigger] folds(f, g, input, z, n, acc, rest) && stops(f, n, rest);
        lemma_folds_front(f, g, input, z, n, acc, rest);
    }
    if let IResult::Done(rest, acc) = one_or_more {
        let n = choose|n: nat|
            n > 0 && #[trigger] folds(f, g, input, z, n, acc, rest) && stops(f, n, rest);
        lemma_folds_front(f, g, input, z, n, acc, rest);
    }
}

/// Runs the fold; hands back the rest, the accumulator, and whether `f`
/// succeeded at all.
fn fold_many<'a, O, A, F, G>(f: F, g: G, input: &'a [u8], z: A) -> (out: (
    &'a [u8],
    A,
    bool,
    Ghost<nat>,
)) where F: Fn(&'a [u8]) -> IResult<&'a [u8], O>, G: Fn(A, O) -> A
    requires
        takes_rests(f, input),
        leaves_rests(f, input),
        advances(f, input),
        forall|a: A, o: O| #[trigger] g.requires((a, o)),
    ensures
        is_rest_of(out.0@, input@),
        folds(f, g, input, z, out.3@, out.1, out.0),
        stops(f, out.3@, out.0),
        out.3@ > 0 <==> out.2,
{
    let len = input.len();
    let mut begin: usize = 0;
    let mut remaining: usize = len;
    let mut rest: &'a [u8] = input;
    let mut res: A = z;
    let mut matched = false;
    let ghost mut n: nat = 0;
    assert(input@.skip(0) =~= input@);
    loop
        invariant
            len == input@.len(),
            begin <= len,
            remaining == len - begin,
            rest@ == input@.skip(begin as int),
            takes_rests(f, input),
            leaves_rests(f, input),
            advances(f, input),
            forall|a: A, o: O| #[trigger] g.requires((a, o)),
            folds(f, g, input, z, n, res, rest),
            n > 0 <==> matched,
        decreases len - begin,
    {
        assert(is_rest_of(rest@, input@));
        let r = f(rest);
        match r {
            IResult::Done(i, o) => {
                let ghost before = res;
                res = g(res, o);
                begin = begin + (remaining - i.len());
                remaining = i.len();
                matched = true;
                proof {
                    lemma_folds_step(f, g, input, z, n, before, rest, o, res, i);
                    n = n + 1;
                    assert(i@ =~= input@.skip(begin as int));
                }
                if begin >= len {
                    return (i, res, matched, Ghost(n));
                }
                rest = &input[begin..len];
                assert(rest =~= i);
            },
            _ => {
                assert(f.ensures((rest,), r) && !(r is Done));
                return (rest, res, matched, Ghost(n));
            },
        }
    }
}

/// Applies `f` zero or more times and folds what it parsed into `z` with
/// `assemble`, under the stopping rule of `many0`.
pub fn fold0<'a, O, A, F, G>(f: F, assemble: G, input: &'a [u8], z: A) -> (res: IResult<
    &'a [u8],
    A,
>) where F: Fn(&'a [u8]) -> IResult<&'a [u8], O>, G: Fn(A, O) -> A
    requires
        takes_rests(f, input),
        leaves_rests(f, input),
        advances(f, input),
        forall|a: A, o: O| #[trigger] assemble.requires((a, o)),
    ensures
        fold0_post(f, assemble, input, z, res),
        res matches IResult::Done(rest, acc) && is_rest_of(rest@, input@),
{
    let (rest, acc, _, Ghost(n)) = fold_many(f, assemble, input, z);
    let res = IResult::Done(rest, acc);
    assert(folds(f, assemble, input, z, n, res->Done_1, res->Done_0));
    res
}

/// Applies `f` one or more times and folds what it parsed into `z` with
/// `assemble`; where not even the first attempt succeeds, fails with
/// `Error(0)`.
pub fn fold1<'a, O, A, F, G>(f: F, assemble: G, input: &'a [u8], z: A) -> (res: IResult<
    &'a [u8],
    A,
>) where F: Fn(&'a [u8]) -> IResult<&'a [u8], O>, G: Fn(A, O) -> A
    requires
        takes_rests(f, input),
        leaves_rests(f, input),
        advances(f, input),
        forall|a: A, o: O| #[trigger] assemble.requires((a, o)),
    ensures
        fold1_post(f, assemble, input, z, res),
        res matches IResult::Done(rest, acc) ==> is_rest_of(rest@, input@),
{
    let (rest, acc, matched, Ghost(n)) = fold_many(f, assemble, input, z);
    if matched {
        let res = IResult::Done(rest, acc);
        assert(folds(f, assemble, input, z, n, res->Done_1, res->Done_0));
        res
    } else {
        IResult::Error(0)
    }
}

/// The bytes that one element is taken to need: the fixed length where the
/// caller gave one, else what was last seen of the element parser.
pub open spec fn per_element(fixed: Option<usize>, seen: int) -> int {
    match fixed {
        Some(length) => length as int,
        None => seen,
    }
}

/// The estimate of a length-prefixed repetition that ran out of input: the
/// bytes of the count, and `count` times the bytes of one element.
pub open spec fn length_value_needed(length_token: int, count: int, element: int) -> Needed {
    Needed::bytes(length_token + count * element)
}

/// The repetition with the values `vs` that leaves `rest` has at least one
/// value, and its last success consumed `n` bytes.
pub open spec fn last_consumed<'a, O, G>(
    g: G,
    i1: &'a [u8],
    vs: Seq<O>,
    rest: &'a [u8],
    n: int,
) -> bool where G: Fn(&'a [u8]) -> IResult<&'a [u8], O> {
    vs.len() > 0 && exists|prev: &'a [u8]|
        repeats(g, i1, vs.drop_last(), prev) && #[trigger] g.ensures(
            (prev,),
            IResult::Done(rest, vs.last()),
        ) && n == prev@.len() - rest@.len()
}

/// What the element parser's answer `r` on `rest`, where it is not `Done`,
/// makes of a length-prefixed repetition.
pub open spec fn element_failure<'a, O>(
    length_token: int,
    count: usize,
    fixed: Option<usize>,
    r: IResult<&'a [u8], O>,
) -> IResult<&'a [u8], Vec<O>> {
    match r {
        IResult::Error(e) => IResult::Error(e),
        IResult::Incomplete(Needed::Size(a)) => IResult::Incomplete(
            length_value_needed(length_token, count as int, per_element(fixed, a as int)),
        ),
        _ => IResult::Incomplete(Needed::Unknown),
    }
}

/// What a length-prefixed repetition answers once the count is known and
/// `i1` is what the count parser left.
///
/// `Done` comes with exactly `count` values. Every other answer comes after
/// fewer: `Incomplete` with the estimate where an element used up the input
/// with more to come, else what the element parser's own failure makes of it.
pub open spec fn elements_post<'a, O, G>(
    g: G,
    i1: &'a [u8],
    length_token: int,
    count: usize,
    fixed: Option<usize>,
    res: IResult<&'a [u8], Vec<O>>,
) -> bool where G: Fn(&'a [u8]) -> IResult<&'a [u8], O> {
    match res {
        IResult::Done(rest, vs) => vs@.len() == count && repeats(g, i1, vs@, rest),
        _ => exists|vs: Seq<O>, rest: &'a [u8]|
            #[trigger] repeats(g, i1, vs, rest) && vs.len() < count && {
                ||| rest@.len() == 0 && exists|n: int|
                    #[trigger] last_consumed(g, i1, vs, rest, n) && res == IResult::<
                        &'a [u8],
                        Vec<O>,
                    >::Incomplete(
                        length_value_needed(length_token, count as int, per_element(fixed, n)),
                    )
                ||| (vs.len() == 0 || rest@.len() > 0) && exists|r: IResult<&'a [u8], O>|
                    #[trigger] g.ensures((rest,), r) && !(r is Done) && res == element_failure(
                        length_token,
                        count,
                        fixed,
                        r,
                    )
            },
    }
}

/// What a length-prefixed repetition answers: what the count parser's failure
/// was, or else what the elements after the count come to.
pub open spec fn length_value_post<'a, O, F, G>(
    f: F,
    g: G,
    fixed: Option<usize>,
    input: &'a [u8],
    res: IResult<&'a [u8], Vec<O>>,
) -> bool where
    F: Fn(&'a [u8]) -> IResult<&'a [u8], usize>,
    G: Fn(&'a [u8]) -> IResult<&'a [u8], O>,
 {
    exists|rc: IResult<&'a [u8], usize>|
        #[trigger] f.ensures((input,), rc) && match rc {
            IResult::Done(i1, count) => elements_post(
                g,
                i1,
                input@.len() - i1@.len(),
                count,
                fixed,
                res,
            ),
            IResult::Error(e) => res == IResult::<&'a [u8], Vec<O>>::Error(e),
            IResult::Incomplete(n) => res == IResult::<&'a [u8], Vec<O>>::Incomplete(n),
        }
}

/// The estimate for `count` elements of `element` bytes after a count of
/// `length_token` bytes.
fn estimate(length_token: usize, count: usize, element: usize) -> (needed: Needed)
    ensures
        needed == length_value_needed(length_token as int, count as int, element as int),
{
    match count.checked_mul(element) {
        Some(all) => match length_token.checked_add(all) {
            Some(total) => Needed::Size(total),
            None => Needed::Unknown,
        },
        None => Needed::Unknown,
    }
}

/// Parses `count` elements from `i1` with `g`.
fn elements<'a, O, G>(
    g: G,
    i1: &'a [u8],
    length_token: usize,
    count: usize,
    fixed: Option<usize>,
) -> (res: IResult<&'a [u8], Vec<O>>) where G: Fn(&'a [u8]) -> IResult<&'a [u8], O>
    requires
        takes_rests(g, i1),
        leaves_rests(g, i1),
    ensures
        elements_post(g, i1, length_token as int, count, fixed, res),
        res matches IResult::Done(rest, vs) ==> is_rest_of(rest@, i1@),
{
    let len = i1.len();
    let mut begin: usize = 0;
    let mut remaining: usize = len;
    let mut rest: &'a [u8] = i1;
    let mut res: Vec<O> = Vec::new();
    assert(i1@.skip(0) =~= i1@);
    loop
        invariant
            len == i1@.len(),
            begin <= len,
            remaining == len - begin,
            rest@ == i1@.skip(begin as int),
            takes_rests(g, i1),
            leaves_rests(g, i1),
            repeats(g, i1, res@, rest),
            res@.len() <= count,
            res@.len() == 0 || rest@.len() > 0,
        decreases count - res@.len(),
    {
        assert(is_rest_of(rest@, i1@));
        if res.len() == count {
            return IResult::Done(rest, res);
        }
        let r = g(rest);
        match r {
            IResult::Done(i2, o2) => {
                let ghost before = res@;
                res.push(o2);
                let parsed = remaining - i2.len();
                begin = begin + parsed;
                remaining = i2.len();
                proof {
                    lemma_repeats_push(g, i1, before, rest, i2, o2);
                    assert(res@.drop_last() =~= before);
                    assert(i2@ =~= i1@.skip(begin as int));
                    assert(last_consumed(g, i1, res@, i2, parsed as int));
                }
                if begin >= len {
                    if res.len() == count {
                        return IResult::Done(i2, res);
                    }
                    let element = match fixed {
                        Some(length) => length,
                        None => parsed,
                    };
                    return IResult::Incomplete(estimate(length_token, count, element));
                }
                rest = &i1[begin..len];
                assert(rest =~= i2);
            },
            IResult::Error(a) => {
                assert(g.ensures((rest,), r) && !(r is Done));
                return IResult::Error(a);
            },
            IResult::Incomplete(Needed::Unknown) => {
                assert(g.ensures((rest,), r) && !(r is Done));
                return IResult::Incomplete(Needed::Unknown);
            },
            IResult::Incomplete(Needed::Size(a)) => {
                assert(g.ensures((rest,), r) && !(r is Done));
                let element = match fixed {
                    Some(length) => length,
                    None => a,
                };
                return IResult::Incomplete(estimate(length_token, count, element));
            },
        }
    }
}

/// Runs the count parser, then the elements.
fn counted<'a, O, F, G>(f: F, g: G, fixed: Option<usize>, input: &'a [u8]) -> (res: IResult<
    &'a [u8],
    Vec<O>,
>) where F: Fn(&'a [u8]) -> IResult<&'a [u8], usize>, G: Fn(&'a [u8]) -> IResult<&'a [u8], O>
    requires
        f.requires((input,)),
        forall|i1: &'a [u8], count: usize| #[trigger]
            f.ensures((input,), IResult::Done(i1, count)) ==> is_rest_of(i1@, input@),
        takes_rests(g, input),
        leaves_rests(g, input),
    ensures
        length_value_post(f, g, fixed, input, res),
        res matches IResult::Done(rest, vs) ==> is_rest_of(rest@, input@),
{
    let rc = f(input);
    match rc {
        IResult::Error(a) => IResult::Error(a),
        IResult::Incomplete(i) => IResult::Incomplete(i),
        IResult::Done(i1, nb) => {
            let length_token = input.len() - i1.len();
            proof {
                assert forall|s: &'a [u8]| is_rest_of(s@, i1@) implies is_rest_of(
                    s@,
                    input@,
                ) by {
                    lemma_rest_of_rest(s@, i1@, input@);
                }
            }
            let res = elements(g, i1, length_token, nb, fixed);
            proof {
                if res is Done {
                    lemma_rest_of_rest(res->Done_0@, i1@, input@);
                }
            }
            res
        },
    }
}

/// Length-prefixed repetition: `f` parses a count, then `g` parses that many
/// elements from what `f` left.
///
/// Where the input runs out before the count is reached, the answer is
/// `Incomplete` with an estimate of the bytes of the count and, for each
/// element, as many bytes as the element parser last consumed or asked for.
pub fn length_value<'a, O, F, G>(f: F, g: G, input: &'a [u8]) -> (res: IResult<
    &'a [u8],
    Vec<O>,
>) where F: Fn(&'a [u8]) -> IResult<&'a [u8], usize>, G: Fn(&'a [u8]) -> IResult<&'a [u8], O>
    requires
        f.requires((input,)),
        forall|i1: &'a [u8], count: usize| #[trigger]
            f.ensures((input,), IResult::Done(i1, count)) ==> is_rest_of(i1@, input@),
        takes_rests(g, input),
        leaves_rests(g, input),
    ensures
        length_value_post(f, g, None, input, res),
        res matches IResult::Done(rest, vs) ==> is_rest_of(rest@, input@),
{
    counted(f, g, None, input)
}

/// Length-prefixed repetition of elements of a known size: as `length_value`,
/// but every estimate counts `length` bytes for each element.
pub fn length_value_sized<'a, O, F, G>(f: F, g: G, length: usize, input: &'a [u8]) -> (res:
    IResult<&'a [u8], Vec<O>>) where
    F: Fn(&'a [u8]) -> IResult<&'a [u8], usize>,
    G: Fn(&'a [u8]) -> IResult<&'a [u8], O>,

    requires
        f.requires((input,)),
        forall|i1: &'a [u8], count: usize| #[trigger]
            f.ensures((input,), IResult::Done(i1, count)) ==> is_rest_of(i1@, input@),
        takes_rests(g, input),
        leaves_rests(g, input),
    ensures
        length_value_post(f, g, Some(length), input, res),
        res matches IResult::Done(rest, vs) ==> is_rest_of(rest@, input@),
{
    counted(f, g, Some(length), input)
}

} // verus!
