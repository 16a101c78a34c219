use nom::internal::IResult::{Done, Incomplete};
use nom::internal::{IResult, Needed};
use nom::producer::{pusher, MemProducer, Producer, ProducerState};

fn local_print(input: &[u8]) -> IResult<&[u8], ()> {
    println!("{:?}", input);
    Done(input, ())
}

#[test]
fn mem_producer() {
    let mut p = MemProducer::new(b"abcdefgh", 4);
    assert_eq!(p.produce(), ProducerState::Data(&b"abcd"[..]));
}

#[test]
fn mem_producer_2() {
    let mut p = MemProducer::new(b"abcdefgh", 8);
    fn pr(data: &[u8]) -> IResult<&[u8], ()> {
        local_print(data)
    }
    let left = pusher(&mut p, pr);
    assert_eq!(left, b"abcdefgh".to_vec());
}

#[test]
fn accu() {
    fn f(input: &[u8]) -> IResult<&[u8], Vec<u8>> {
        if input.len() <= 4 {
            Incomplete(Needed::Size(4))
        } else {
            Done(&b""[..], input.to_vec())
        }
    }

    let mut p = MemProducer::new(b"abcdefgh", 4);
    fn pr(data: &[u8]) -> IResult<&[u8], Vec<u8>> {
        let r = f(data);
        println!("f: {:?}", r);
        r
    }
    let left = pusher(&mut p, pr);
    assert_eq!(left, Vec::<u8>::new());
}

#[test]
fn accu_2() {
    fn f(input: &[u8]) -> IResult<&[u8], Vec<u8>> {
        if input.len() <= 4 || &input[0..5] != b"abcde" {
            Incomplete(Needed::Size(4))
        } else {
            Done(&input[5..], input[0..5].to_vec())
        }
    }

    let mut p = MemProducer::new(b"abcdefgh", 4);
    fn pr(data: &[u8]) -> IResult<&[u8], Vec<u8>> {
        let r = f(data);
        println!("f: {:?}", r);
        r
    }
    let left = pusher(&mut p, pr);
    assert_eq!(left, b"fgh".to_vec());
}
