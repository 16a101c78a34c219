use nom::internal::IResult::{Done, Error, Incomplete};
use nom::internal::{IResult, Needed};

fn be_u8(i: &[u8]) -> IResult<&[u8], u8> {
    if i.len() < 1 {
        Incomplete(Needed::Size(1))
    } else {
        Done(&i[1..], i[0])
    }
}

fn be_u16(i: &[u8]) -> IResult<&[u8], u16> {
    if i.len() < 2 {
        Incomplete(Needed::Size(2))
    } else {
        Done(&i[2..], ((i[0] as u16) << 8) + i[1] as u16)
    }
}

fn count(i: &[u8]) -> IResult<&[u8], usize> {
    match be_u8(i) {
        Done(rest, n) => Done(rest, n as usize),
        Error(e) => Error(e),
        Incomplete(n) => Incomplete(n),
    }
}

fn x(i: &[u8]) -> IResult<&[u8], &[u8]> {
    nom::bytes::tag(b"abcd", i)
}

fn y(i: &[u8]) -> IResult<&[u8], &[u8]> {
    nom::bytes::tag(b"efgh", i)
}

#[test]
fn is_a() {
    fn a_or_b(i: &[u8]) -> IResult<&[u8], &[u8]> {
        nom::bytes::is_a(b"ab", i)
    }

    let a = b"abcd";
    assert_eq!(a_or_b(a), Done(&b"cd"[..], &b"ab"[..]));

    let b = b"bcde";
    assert_eq!(a_or_b(b), Done(&b"cde"[..], &b"b"[..]));

    let c = b"cdef";
    assert_eq!(a_or_b(c), Done(&b"cdef"[..], &b""[..]));

    let d = b"bacdef";
    assert_eq!(a_or_b(d), Done(&b"cdef"[..], &b"ba"[..]));
}

#[derive(PartialEq, Eq, Debug)]
struct B {
    a: u8,
    b: u8,
}

#[test]
fn chain_and_ignore() {
    fn ret_int(i: &[u8]) -> IResult<&[u8], u8> {
        Done(i, 1)
    }
    fn z(input: &[u8]) -> IResult<&[u8], u8> {
        nom::sequence::keep_second(
            x,
            |i| nom::sequence::keep_second(x, |i| nom::sequence::keep_first(ret_int, y, i), i),
            input,
        )
    }

    let r = z(b"abcdabcdefgh");
    assert_eq!(r, Done(&b""[..], 1));
}

#[test]
fn chain() {
    fn temp_ret_int1(i: &[u8]) -> IResult<&[u8], u8> {
        Done(i, 1)
    }
    fn ret_int1(i: &[u8]) -> IResult<&[u8], u8> {
        nom::sequence::keep_second(x, temp_ret_int1, i)
    }
    fn ret_int2(i: &[u8]) -> IResult<&[u8], u8> {
        Done(i, 2)
    }
    fn f(input: &[u8]) -> IResult<&[u8], B> {
        nom::sequence::chain(
            ret_int1,
            |i, aa| nom::sequence::chain(ret_int2, |i, bb| Done(i, B { a: aa, b: bb }), i),
            input,
        )
    }

    let r = f(b"abcde");
    assert_eq!(r, Done(&b"e"[..], B { a: 1, b: 2 }));
}

#[test]
fn chain2() {
    fn ret_int1(i: &[u8]) -> IResult<&[u8], u8> {
        Done(i, 1)
    }
    fn ret_int2(i: &[u8]) -> IResult<&[u8], u8> {
        Done(i, 2)
    }
    fn tail(i: &[u8], aa: u8) -> IResult<&[u8], B> {
        nom::sequence::chain(
            y,
            |i, _| {
                nom::sequence::chain(
                    ret_int2,
                    |i, bb| nom::sequence::chain(y, |i, _| Done(i, B { a: aa, b: bb }), i),
                    i,
                )
            },
            i,
        )
    }
    fn f(input: &[u8]) -> IResult<&[u8], B> {
        nom::sequence::chain(
            x,
            |i, _| {
                nom::sequence::chain_opt(
                    x,
                    |i, _| nom::sequence::chain(ret_int1, tail, i),
                    i,
                )
            },
            input,
        )
    }

    let r = f(b"abcdabcdefghefghX");
    assert_eq!(r, Done(&b"X"[..], B { a: 1, b: 2 }));

    let r2 = f(b"abcdefghefghX");
    assert_eq!(r2, Done(&b"X"[..], B { a: 1, b: 2 }));
}

#[derive(PartialEq, Eq, Debug)]
struct C {
    a: u8,
    b: Option<u8>,
}

#[test]
fn chain_opt() {
    fn ret_int1(i: &[u8]) -> IResult<&[u8], u8> {
        Done(i, 1)
    }
    fn ret_y(i: &[u8]) -> IResult<&[u8], u8> {
        match y(i) {
            Done(rest, _) => Done(rest, 2),
            Error(e) => Error(e),
            Incomplete(n) => Incomplete(n),
        }
    }
    fn f(input: &[u8]) -> IResult<&[u8], C> {
        nom::sequence::chain(
            x,
            |i, _| {
                nom::sequence::chain(
                    ret_int1,
                    |i, aa| nom::sequence::chain_opt(ret_y, |i, bb| Done(i, C { a: aa, b: bb }), i),
                    i,
                )
            },
            input,
        )
    }

    let r = f(b"abcdefghX");
    assert_eq!(r, Done(&b"X"[..], C { a: 1, b: Some(2) }));

    let r2 = f(b"abcdWXYZ");
    assert_eq!(r2, Done(&b"WXYZ"[..], C { a: 1, b: None }));

    let r3 = f(b"abcdX");
    assert_eq!(r3, Incomplete(Needed::Size(4)));
}

#[test]
fn alt() {
    fn work(input: &[u8]) -> IResult<&[u8], &[u8]> {
        Done(&b""[..], input)
    }

    #[allow(unused_variables)]
    fn dont_work(input: &[u8]) -> IResult<&[u8], &[u8]> {
        Error(3)
    }

    fn work2(input: &[u8]) -> IResult<&[u8], &[u8]> {
        Done(input, &b""[..])
    }

    fn alt1(i: &[u8]) -> IResult<&[u8], &[u8]> {
        nom::sequence::alt(dont_work, dont_work, i)
    }
    fn alt2(i: &[u8]) -> IResult<&[u8], &[u8]> {
        nom::sequence::alt(dont_work, work, i)
    }
    fn alt3(i: &[u8]) -> IResult<&[u8], &[u8]> {
        nom::sequence::alt(
            dont_work,
            |i| nom::sequence::alt(dont_work, |i| nom::sequence::alt(work2, dont_work, i), i),
            i,
        )
    }

    let a = b"abcd";
    assert_eq!(alt1(a), Error(1));
    assert_eq!(alt2(a), Done(&b""[..], &a[..]));
    assert_eq!(alt3(a), Done(&a[..], &b""[..]));
}

#[test]
fn opt() {
    fn o(i: &[u8]) -> IResult<&[u8], Option<&[u8]>> {
        nom::sequence::opt(x, i)
    }

    let a = b"abcdef";
    let b = b"bcdefg";
    assert_eq!(o(a), Done(&b"ef"[..], Some(&b"abcd"[..])));
    assert_eq!(o(b), Done(&b"bcdefg"[..], None));
}

#[test]
fn peek() {
    fn ptag(i: &[u8]) -> IResult<&[u8], &[u8]> {
        nom::sequence::peek(x, i)
    }

    let r1 = ptag(b"abcdefgh");
    assert_eq!(r1, Done(&b"abcdefgh"[..], &b"abcd"[..]));

    let r1 = ptag(b"efgh");
    assert_eq!(r1, Error(0));
}

#[test]
fn many0() {
    fn multi(i: &[u8]) -> IResult<&[u8], Vec<&[u8]>> {
        nom::multi::many0(x, i)
    }

    let a = b"abcdef";
    let b = b"abcdabcdef";
    let c = b"azerty";

    let res1 = vec![&b"abcd"[..]];
    assert_eq!(multi(a), Done(&b"ef"[..], res1));
    let res2 = vec![&b"abcd"[..], &b"abcd"[..]];
    assert_eq!(multi(b), Done(&b"ef"[..], res2));
    assert_eq!(multi(c), Done(&b"azerty"[..], Vec::new()));
}

#[test]
fn many1() {
    fn multi(i: &[u8]) -> IResult<&[u8], Vec<&[u8]>> {
        nom::multi::many1(x, i)
    }

    let a = b"abcdef";
    let b = b"abcdabcdef";
    let c = b"azerty";
    let res1 = vec![&b"abcd"[..]];
    assert_eq!(multi(a), Done(&b"ef"[..], res1));
    let res2 = vec![&b"abcd"[..], &b"abcd"[..]];
    assert_eq!(multi(b), Done(&b"ef"[..], res2));
    assert_eq!(multi(c), Error(0));
}

#[test]
fn take_until_test() {
    fn x(i: &[u8]) -> IResult<&[u8], &[u8]> {
        nom::bytes::take_until(b"efgh", i)
    }
    let r = x(b"abcdabcdefghijkl");
    assert_eq!(r, Done(&b"ijkl"[..], &b"abcdabcd"[..]));

    println!("Done 1\n");

    let r2 = x(b"abcdabcdefgh");
    assert_eq!(r2, Done(&b""[..], &b"abcdabcd"[..]));

    println!("Done 2\n");
    let r3 = x(b"abcefg");
    assert_eq!(r3, Incomplete(Needed::Size(7)));
}

#[test]
fn length_value_test() {
    fn tst1(i: &[u8]) -> IResult<&[u8], Vec<u16>> {
        nom::multi::length_value(count, be_u16, i)
    }
    fn tst2(i: &[u8]) -> IResult<&[u8], Vec<u16>> {
        nom::multi::length_value_sized(count, be_u16, 2, i)
    }

    let i1 = vec![0, 5, 6];
    let i2 = vec![1, 5, 6, 3];
    let i3 = vec![2, 5, 6, 3];
    let i4 = vec![2, 5, 6, 3, 4, 5, 7];
    let i5 = vec![3, 5, 6, 3, 4, 5];

    let r1: Vec<u16> = Vec::new();
    let r2: Vec<u16> = vec![1286];
    let r4: Vec<u16> = vec![1286, 772];
    assert_eq!(tst1(&i1), IResult::Done(&i1[1..], r1));
    assert_eq!(tst1(&i2), IResult::Done(&i2[3..], r2));
    assert_eq!(tst1(&i3), IResult::Incomplete(Needed::Size(5)));
    assert_eq!(tst1(&i4), IResult::Done(&i4[5..], r4));
    assert_eq!(tst1(&i5), IResult::Incomplete(Needed::Size(7)));

    let r6: Vec<u16> = Vec::new();
    let r7: Vec<u16> = vec![1286];
    let r9: Vec<u16> = vec![1286, 772];
    assert_eq!(tst2(&i1), IResult::Done(&i1[1..], r6));
    assert_eq!(tst2(&i2), IResult::Done(&i2[3..], r7));
    assert_eq!(tst2(&i3), IResult::Incomplete(Needed::Size(5)));
    assert_eq!(tst2(&i4), IResult::Done(&i4[5..], r9));
    assert_eq!(tst1(&i5), IResult::Incomplete(Needed::Size(7)));
}
