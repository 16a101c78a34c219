//! Leaf parsers on bytes: fixed tags, fixed sizes, runs of a class of bytes,
//! and scans for a delimiter.
//!
//! Each hands back sub-slices of its input and copies nothing.

use crate::internal::{leaves_rest, IResult, Needed};
use vstd::prelude::*;

verus! {

/// The split of `input` after its first `n` bytes: those bytes are the value
/// parsed, and what follows after `skipped` more bytes is the rest.
pub open spec fn split(input: Seq<u8>, n: int, skipped: int) -> IResult<Seq<u8>, Seq<u8>> {
    IResult::Done(input.skip(n + skipped), input.take(n))
}

/// What `tag` answers for the expected bytes on `input`.
pub open spec fn tag_spec(expected: Seq<u8>, input: Seq<u8>) -> IResult<Seq<u8>, Seq<u8>> {
    if input.len() < expected.len() {
        IResult::Incomplete(Needed::Size(expected.len() as usize))
    } else if input.take(expected.len() as int) == expected {
        IResult::Done(input.skip(expected.len() as int), expected)
    } else {
        IResult::Error(0)
    }
}

/// What `take` answers for `count` bytes on `input`.
pub open spec fn take_spec(count: usize, input: Seq<u8>) -> IResult<Seq<u8>, Seq<u8>> {
    if input.len() < count {
        IResult::Incomplete(Needed::Size(count))
    } else {
        split(input, count as int, 0)
    }
}

/// The first `n` bytes of `input` are the longest prefix whose bytes are all
/// in `class`.
pub open spec fn is_run(input: Seq<u8>, n: int, class: spec_fn(u8) -> bool) -> bool {
    &&& 0 <= n <= input.len()
    &&& forall|k: int| 0 <= k < n ==> class(#[trigger] input[k])
    &&& n < input.len() ==> !class(input[n])
}

/// The bytes of `set`, as a class.
pub open spec fn among(set: Seq<u8>) -> spec_fn(u8) -> bool {
    |b: u8| set.contains(b)
}

/// The bytes that are not in `set`, as a class.
pub open spec fn outside(set: Seq<u8>) -> spec_fn(u8) -> bool {
    |b: u8| !set.contains(b)
}

/// What a scan for the longest prefix in `class` answers on `input`: `Done`
/// at the end of that prefix, in every case.
pub open spec fn run_post(
    input: Seq<u8>,
    class: spec_fn(u8) -> bool,
    res: IResult<Seq<u8>, Seq<u8>>,
) -> bool {
    res matches IResult::Done(rest, out) && is_run(input, out.len() as int, class) && res == split(
        input,
        out.len() as int,
        0,
    )
}

/// `delimiter` stands in `input` at index `i`.
pub open spec fn occurs_at(input: Seq<u8>, delimiter: Seq<u8>, i: int) -> bool {
    0 <= i && i + delimiter.len() <= input.len() && input.subrange(i, i + delimiter.len())
        == delimiter
}

/// `i` is the index of the first occurrence of `delimiter` in `input`.
pub open spec fn first_at(input: Seq<u8>, delimiter: Seq<u8>, i: int) -> bool {
    occurs_at(input, delimiter, i) && forall|j: int|
        0 <= j < i ==> !#[trigger] occurs_at(input, delimiter, j)
}

/// `delimiter` occurs nowhere in `input`.
pub open spec fn absent(input: Seq<u8>, delimiter: Seq<u8>) -> bool {
    forall|j: int| !#[trigger] occurs_at(input, delimiter, j)
}

/// The estimate of a scan that read `len` bytes and found no delimiter of `d`
/// bytes: the index from which the delimiter no longer fits, and the
/// delimiter's length.
pub open spec fn scan_needed(len: int, d: int) -> Needed {
    if len >= d {
        Needed::bytes(len - d + 1 + d)
    } else {
        Needed::bytes(d)
    }
}

/// What a scan for `delimiter` answers on `input`: `Done` at its first
/// occurrence, with the rest starting `skipped` bytes after the value, or
/// `Incomplete` where it does not occur.
pub open spec fn until_post(
    input: Seq<u8>,
    delimiter: Seq<u8>,
    skipped: int,
    res: IResult<Seq<u8>, Seq<u8>>,
) -> bool {
    match res {
        IResult::Done(rest, out) => first_at(input, delimiter, out.len() as int) && res == split(
            input,
            out.len() as int,
            skipped,
        ),
        IResult::Incomplete(n) => absent(input, delimiter) && n == scan_needed(
            input.len() as int,
            delimiter.len() as int,
        ),
        IResult::Error(_) => false,
    }
}

/// What a scan for any byte of `set` answers on `input`: `Done` at the first
/// byte that is in `set`, with the rest starting `skipped` bytes after the
/// value, or `Incomplete` where no byte is.
pub open spec fn until_either_post(
    input: Seq<u8>,
    set: Seq<u8>,
    skipped: int,
    res: IResult<Seq<u8>, Seq<u8>>,
) -> bool {
    match res {
        IResult::Done(rest, out) => out.len() < input.len() && is_run(
            input,
            out.len() as int,
            outside(set),
        ) && res == split(input, out.len() as int, skipped),
        IResult::Incomplete(n) => is_run(input, input.len() as int, outside(set)) && n
            == scan_needed(input.len() as int, 1),
        IResult::Error(_) => false,
    }
}

/// The longest prefix in a class is one only: two runs of one input have the
/// same length.
pub proof fn lemma_run_unique(input: Seq<u8>, n: int, m: int, class: spec_fn(u8) -> bool)
    requires
        is_run(input, n, class),
        is_run(input, m, class),
    ensures
        n == m,
{
    if n < m {
        assert(class(input[n]));
    } else if m < n {
        assert(class(input[m]));
    }
}

/// A scan for the longest prefix in a class has one answer only.
pub proof fn lemma_run_answer_unique(
    input: Seq<u8>,
    class: spec_fn(u8) -> bool,
    one: IResult<Seq<u8>, Seq<u8>>,
    other: IResult<Seq<u8>, Seq<u8>>,
)
    requires
        run_post(input, class, one),
        run_post(input, class, other),
    ensures
        one == other,
{
    lemma_run_unique(input, one->Done_1.len() as int, other->Done_1.len() as int, class);
}

/// A scan for a delimiter has one answer only.
pub proof fn lemma_until_answer_unique(
    input: Seq<u8>,
    delimiter: Seq<u8>,
    skipped: int,
    one: IResult<Seq<u8>, Seq<u8>>,
    other: IResult<Seq<u8>, Seq<u8>>,
)
    requires
        until_post(input, delimiter, skipped, one),
        until_post(input, delimiter, skipped, other),
    ensures
        one == other,
{
    if one is Done && other is Done {
        let n = one->Done_1.len() as int;
        let m = other->Done_1.len() as int;
        if n < m {
            assert(occurs_at(input, delimiter, n));
        } else if m < n {
            assert(occurs_at(input, delimiter, m));
        }
    } else if one is Done {
        assert(occurs_at(input, delimiter, one->Done_1.len() as int));
    } else if other is Done {
        assert(occurs_at(input, delimiter, other->Done_1.len() as int));
    }
}

/// What a tag asks for is enough: with that many bytes more, or more than
/// those, it asks no longer.
pub proof fn lemma_tag_needed_is_enough(expected: Seq<u8>, input: Seq<u8>, more: Seq<u8>, n: usize)
    requires
        expected.len() <= usize::MAX,
        tag_spec(expected, input) == IResult::<Seq<u8>, Seq<u8>>::Incomplete(Needed::Size(n)),
        more.len() >= n,
    ensures
        !(tag_spec(expected, input + more) is Incomplete),
{
}

/// What a take asks for is enough: with that many bytes more, or more than
/// those, it succeeds.
pub proof fn lemma_take_needed_is_enough(count: usize, input: Seq<u8>, more: Seq<u8>, n: usize)
    requires
        take_spec(count, input) == IResult::<Seq<u8>, Seq<u8>>::Incomplete(Needed::Size(n)),
        more.len() >= n,
    ensures
        take_spec(count, input + more) is Done,
{
}

/// On its own match followed by any bytes, a tag consumes exactly the match
/// and leaves what follows.
pub proof fn lemma_tag_exact(expected: Seq<u8>, following: Seq<u8>)
    ensures
        tag_spec(expected, expected + following) == IResult::Done(following, expected),
{
    assert((expected + following).take(expected.len() as int) =~= expected);
    assert((expected + following).skip(expected.len() as int) =~= following);
}

/// Matches the bytes `expected` at the start of `input`.
///
/// A shorter input cannot decide and asks for the length of `expected`; a
/// longer one either starts with `expected`, which is consumed, or fails.
pub fn tag<'a>(expected: &[u8], input: &'a [u8]) -> (res: IResult<&'a [u8], &'a [u8]>)
    ensures
        res@ == tag_spec(expected@, input@),
        leaves_rest(input@, res@),
{
    let n = expected.len();
    if n > input.len() {
        return IResult::Incomplete(Needed::Size(n));
    }
    let mut idx: usize = 0;
    while idx < n
        invariant
            n == expected@.len(),
            n <= input@.len(),
            idx <= n,
            forall|k: int| 0 <= k < idx ==> input@[k] == expected@[k],
        decreases n - idx,
    {
        if input[idx] != expected[idx] {
            assert(input@.take(n as int)[idx as int] != expected@[idx as int]);
            return IResult::Error(0);
        }
        idx = idx + 1;
    }
    assert(input@.take(n as int) =~= expected@);
    IResult::Done(&input[n..input.len()], &input[0..n])
}

/// Takes the first `count` bytes of `input`, or asks for `count` bytes where
/// there are fewer.
pub fn take<'a>(count: usize, input: &'a [u8]) -> (res: IResult<&'a [u8], &'a [u8]>)
    ensures
        res@ == take_spec(count, input@),
        leaves_rest(input@, res@),
{
    if input.len() < count {
        IResult::Incomplete(Needed::Size(count))
    } else {
        IResult::Done(&input[count..input.len()], &input[0..count])
    }
}

/// Whether `b` is one of `bytes`.
fn holds(bytes: &[u8], b: u8) -> (found: bool)
    ensures
        found == bytes@.contains(b),
{
    let mut k: usize = 0;
    while k < bytes.len()
        invariant
            k <= bytes@.len(),
            forall|j: int| 0 <= j < k ==> bytes@[j] != b,
        decreases bytes@.len() - k,
    {
        if bytes[k] == b {
            return true;
        }
        k = k + 1;
    }
    false
}

/// The length of the longest prefix of `input` whose bytes are all among
/// `set`, or with `inside` false all outside it.
fn run_length(set: &[u8], inside: bool, input: &[u8]) -> (n: usize)
    ensures
        is_run(
            input@,
            n as int,
            if inside {
                among(set@)
            } else {
                outside(set@)
            },
        ),
{
    let mut idx: usize = 0;
    while idx < input.len()
        invariant
            idx <= input@.len(),
            forall|k: int| 0 <= k < idx ==> set@.contains(#[trigger] input@[k]) == inside,
        decreases input@.len() - idx,
    {
        if holds(set, input[idx]) != inside {
            return idx;
        }
        idx = idx + 1;
    }
    idx
}

/// Takes the longest prefix of `input` whose bytes are all among `set`.
///
/// The input running out ends the prefix as a byte outside `set` does: the
/// answer is `Done` in every case.
pub fn is_a<'a>(set: &[u8], input: &'a [u8]) -> (res: IResult<&'a [u8], &'a [u8]>)
    ensures
        run_post(input@, among(set@), res@),
        leaves_rest(input@, res@),
{
    let idx = run_length(set, true, input);
    IResult::Done(&input[idx..input.len()], &input[0..idx])
}

/// Takes the longest prefix of `input` none of whose bytes is among `set`.
pub fn is_not<'a>(set: &[u8], input: &'a [u8]) -> (res: IResult<&'a [u8], &'a [u8]>)
    ensures
        run_post(input@, outside(set@), res@),
        leaves_rest(input@, res@),
{
    let idx = run_length(set, false, input);
    IResult::Done(&input[idx..input.len()], &input[0..idx])
}

/// What `filter` answers: `Done` at the end of the longest prefix for whose
/// bytes `pred` may say yes, the next byte, if any, being one for which it
/// may say no.
pub open spec fn filter_post<P: Fn(u8) -> bool>(
    pred: P,
    input: Seq<u8>,
    res: IResult<Seq<u8>, Seq<u8>>,
) -> bool {
    res matches IResult::Done(rest, out) && {
        &&& out.len() <= input.len()
        &&& forall|k: int| 0 <= k < out.len() ==> pred.ensures((#[trigger] input[k],), true)
        &&& out.len() < input.len() ==> pred.ensures((input[out.len() as int],), false)
        &&& res == split(input, out.len() as int, 0)
    }
}

/// Takes the longest prefix of `input` whose bytes all satisfy `pred`.
pub fn filter<'a, P: Fn(u8) -> bool>(pred: P, input: &'a [u8]) -> (res: IResult<
    &'a [u8],
    &'a [u8],
>)
    requires
        forall|k: int| 0 <= k < input@.len() ==> pred.requires((#[trigger] input@[k],)),
    ensures
        filter_post(pred, input@, res@),
        leaves_rest(input@, res@),
{
    let mut idx: usize = 0;
    while idx < input.len()
        invariant
            idx <= input@.len(),
            forall|k: int| 0 <= k < input@.len() ==> pred.requires((#[trigger] input@[k],)),
            forall|k: int| 0 <= k < idx ==> pred.ensures((#[trigger] input@[k],), true),
        decreases input@.len() - idx,
    {
        if !pred(input[idx]) {
            return IResult::Done(&input[idx..input.len()], &input[0..idx]);
        }
        idx = idx + 1;
    }
    IResult::Done(&input[idx..input.len()], &input[0..idx])
}

/// Whether `delimiter` stands in `input` at `idx`.
fn stands_at(input: &[u8], delimiter: &[u8], idx: usize) -> (found: bool)
    requires
        idx + delimiter@.len() <= input@.len(),
    ensures
        found == occurs_at(input@, delimiter@, idx as int),
{
    let len = input.len();
    let d = delimiter.len();
    let mut k: usize = 0;
    while k < d
        invariant
            len == input@.len(),
            d == delimiter@.len(),
            idx + d <= len,
            k <= d,
            forall|j: int| 0 <= j < k ==> input@[idx + j] == delimiter@[j],
        decreases d - k,
    {
        if input[idx + k] != delimiter[k] {
            assert(input@.subrange(idx as int, idx + d)[k as int] != delimiter@[k as int]);
            return false;
        }
        k = k + 1;
    }
    assert(input@.subrange(idx as int, idx + d) =~= delimiter@);
    true
}

/// The index of the first occurrence of `delimiter` in `input`, if there is
/// one.
fn first_occurrence(input: &[u8], delimiter: &[u8]) -> (at: Option<usize>)
    ensures
        match at {
            Some(idx) => first_at(input@, delimiter@, idx as int),
            None => absent(input@, delimiter@),
        },
{
    let len = input.len();
    let d = delimiter.len();
    if d > len {
        return None;
    }
    let last = len - d;
    let mut idx: usize = 0;
    loop
        invariant
            len == input@.len(),
            d == delimiter@.len(),
            last == len - d,
            idx <= last,
            forall|j: int| 0 <= j < idx ==> !#[trigger] occurs_at(input@, delimiter@, j),
        decreases last - idx,
    {
        if stands_at(input, delimiter, idx) {
            return Some(idx);
        }
        if idx == last {
            return None;
        }
        idx = idx + 1;
    }
}

/// The hint of a scan that read `len` bytes and found no delimiter of `d`
/// bytes.
fn not_found(len: usize, d: usize) -> (needed: Needed)
    ensures
        needed == scan_needed(len as int, d as int),
{
    if len >= d {
        match len.checked_add(1) {
            Some(n) => Needed::Size(n),
            None => Needed::Unknown,
        }
    } else {
        Needed::Size(d)
    }
}

/// Takes the bytes of `input` before the first occurrence of `delimiter` and
/// consumes the delimiter with them.
///
/// Where `delimiter` does not occur, more input may still bring it: the answer
/// is `Incomplete`, with the length up to which the scan got and the length of
/// the delimiter.
pub fn take_until<'a>(delimiter: &[u8], input: &'a [u8]) -> (res: IResult<&'a [u8], &'a [u8]>)
    ensures
        until_post(input@, delimiter@, delimiter@.len() as int, res@),
        leaves_rest(input@, res@),
{
    let len = input.len();
    match first_occurrence(input, delimiter) {
        Some(idx) => IResult::Done(&input[idx + delimiter.len()..len], &input[0..idx]),
        None => IResult::Incomplete(not_found(len, delimiter.len())),
    }
}

/// Takes the bytes of `input` before the first occurrence of `delimiter` and
/// leaves the delimiter at the start of the rest.
pub fn take_until_and_leave<'a>(delimiter: &[u8], input: &'a [u8]) -> (res: IResult<
    &'a [u8],
    &'a [u8],
>)
    ensures
        until_post(input@, delimiter@, 0, res@),
        leaves_rest(input@, res@),
{
    match first_occurrence(input, delimiter) {
        Some(idx) => IResult::Done(&input[idx..input.len()], &input[0..idx]),
        None => IResult::Incomplete(not_found(input.len(), delimiter.len())),
    }
}

/// Takes the bytes of `input` before the first byte that is among `set`, and
/// consumes that byte with them.
///
/// Where no byte is among `set`, the answer is `Incomplete`, with one byte more
/// than the input has.
pub fn take_until_either<'a>(set: &[u8], input: &'a [u8]) -> (res: IResult<&'a [u8], &'a [u8]>)
    ensures
        until_either_post(input@, set@, 1, res@),
        leaves_rest(input@, res@),
{
    let idx = run_length(set, false, input);
    if idx < input.len() {
        IResult::Done(&input[idx + 1..input.len()], &input[0..idx])
    } else {
        IResult::Incomplete(not_found(input.len(), 1))
    }
}

/// Takes the bytes of `input` before the first byte that is among `set`, and
/// leaves that byte at the start of the rest.
pub fn take_until_either_and_leave<'a>(set: &[u8], input: &'a [u8]) -> (res: IResult<
    &'a [u8],
    &'a [u8],
>)
    ensures
        until_either_post(input@, set@, 0, res@),
        leaves_rest(input@, res@),
{
    let idx = run_length(set, false, input);
    if idx < input.len() {
        IResult::Done(&input[idx..input.len()], &input[0..idx])
    } else {
        IResult::Incomplete(not_found(input.len(), 1))
    }
}

} // verus!
