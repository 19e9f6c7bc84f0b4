use shallow_tees::tee::resolve;
use shallow_tees::{MemError, MemSink, MemSource, SeekError, SeekFrom, ShallowTees, Sink, Source, TeeError};

const ALPHABET: &[u8] = b"abcdefghijklmnop";

fn slow_tee(data: &[u8]) -> ShallowTees<MemSource, MemSink> {
    ShallowTees::new(MemSource::with_chunk(data.to_vec(), 1), MemSink::new())
}

#[test]
fn test() {
    let mut tee = slow_tee(b"abcdefghijklmnop");

    let offset = tee.seek(SeekFrom::Start(5)).unwrap();
    assert_eq!(offset, 5);
    assert_eq!(&tee.sink().bytes()[..], b"abcde");

    let offset = tee.seek(SeekFrom::Start(6)).unwrap();
    assert_eq!(offset, 6);
    assert_eq!(&tee.sink().bytes()[..], b"abcdef");

    let offset = tee.seek(SeekFrom::Start(4)).unwrap();
    assert_eq!(offset, 4);
    assert_eq!(&tee.sink().bytes()[..], b"abcdef");

    let offset = tee.seek(SeekFrom::Current(-1)).unwrap();
    assert_eq!(offset, 3);
    assert_eq!(&tee.sink().bytes()[..], b"abcdef");

    let offset = tee.seek(SeekFrom::Current(7)).unwrap();
    assert_eq!(offset, 10);
    assert_eq!(&tee.sink().bytes()[..], b"abcdefghij");

    let offset = tee.seek(SeekFrom::Current(-1)).unwrap();
    assert_eq!(offset, 9);
    assert_eq!(&tee.sink().bytes()[..], b"abcdefghij");
}

fn read_all_in_chunks(data: &[u8], chunk: usize, buf_len: usize) -> (Vec<u8>, Vec<u8>) {
    let mut tee = ShallowTees::new(MemSource::with_chunk(data.to_vec(), chunk), MemSink::new());
    let mut seen = Vec::new();
    let mut buf = vec![0u8; buf_len];
    loop {
        let n = tee.read(&mut buf).unwrap();
        if n == 0 {
            break;
        }
        seen.extend_from_slice(&buf[..n]);
    }
    assert_eq!(tee.cursor(), data.len() as u64);
    assert_eq!(tee.high_water(), data.len() as u64);
    (seen, tee.sink().bytes().clone())
}

#[test]
fn round_trip_byte_by_byte() {
    let (seen, mirrored) = read_all_in_chunks(ALPHABET, 1, 1);
    assert_eq!(seen, ALPHABET);
    assert_eq!(mirrored, ALPHABET);
}

#[test]
fn round_trip_in_uneven_chunks() {
    let (seen, mirrored) = read_all_in_chunks(ALPHABET, 3, 5);
    assert_eq!(seen, ALPHABET);
    assert_eq!(mirrored, ALPHABET);
    let (seen, mirrored) = read_all_in_chunks(ALPHABET, 7, 4);
    assert_eq!(seen, ALPHABET);
    assert_eq!(mirrored, ALPHABET);
}

#[test]
fn round_trip_in_one_read() {
    let (seen, mirrored) = read_all_in_chunks(ALPHABET, usize::MAX, 64);
    assert_eq!(seen, ALPHABET);
    assert_eq!(mirrored, ALPHABET);
}

#[test]
fn empty_read_changes_nothing() {
    let mut tee = slow_tee(ALPHABET);
    tee.seek(SeekFrom::Start(3)).unwrap();
    tee.seek(SeekFrom::Start(1)).unwrap();
    let mut buf: [u8; 0] = [];
    assert_eq!(tee.read(&mut buf).unwrap(), 0);
    assert_eq!(tee.cursor(), 1);
    assert_eq!(tee.high_water(), 3);
    assert_eq!(&tee.sink().bytes()[..], b"abc");
}

#[test]
fn read_at_end_returns_zero() {
    let mut tee = slow_tee(b"ab");
    tee.seek(SeekFrom::Start(2)).unwrap();
    let mut buf = [0u8; 4];
    assert_eq!(tee.read(&mut buf).unwrap(), 0);
    assert_eq!(&tee.sink().bytes()[..], b"ab");
    assert_eq!(tee.high_water(), 2);
}

#[test]
fn read_over_mirrored_bytes_writes_nothing() {
    let mut tee = ShallowTees::new(MemSource::new(ALPHABET.to_vec()), MemSink::new());
    tee.seek(SeekFrom::Start(8)).unwrap();
    tee.seek(SeekFrom::Start(2)).unwrap();
    let mut buf = [0u8; 4];
    assert_eq!(tee.read(&mut buf).unwrap(), 4);
    assert_eq!(&buf, b"cdef");
    assert_eq!(tee.cursor(), 6);
    assert_eq!(tee.high_water(), 8);
    assert_eq!(&tee.sink().bytes()[..], b"abcdefgh");
}

#[test]
fn read_across_high_water_mirrors_only_the_tail() {
    let mut tee = ShallowTees::new(MemSource::new(ALPHABET.to_vec()), MemSink::new());
    tee.seek(SeekFrom::Start(4)).unwrap();
    tee.seek(SeekFrom::Start(1)).unwrap();
    let mut buf = [0u8; 6];
    assert_eq!(tee.read(&mut buf).unwrap(), 6);
    assert_eq!(&buf, b"bcdefg");
    assert_eq!(tee.cursor(), 7);
    assert_eq!(tee.high_water(), 7);
    assert_eq!(&tee.sink().bytes()[..], b"abcdefg");
}

#[test]
fn seek_past_end_fails_with_eof() {
    let mut tee = slow_tee(ALPHABET);
    tee.seek(SeekFrom::Start(3)).unwrap();
    let r = tee.seek(SeekFrom::Start(20));
    assert!(matches!(r, Err(TeeError::UnexpectedEof)));
    assert_eq!(tee.cursor(), 16);
    assert_eq!(tee.high_water(), 16);
    assert_eq!(&tee.sink().bytes()[..], ALPHABET);
    let offset = tee.seek(SeekFrom::Current(-6)).unwrap();
    assert_eq!(offset, 10);
    assert_eq!(&tee.sink().bytes()[..], ALPHABET);
}

#[test]
fn seek_to_exact_end_succeeds() {
    let mut tee = slow_tee(ALPHABET);
    assert_eq!(tee.seek(SeekFrom::Start(16)).unwrap(), 16);
    assert_eq!(&tee.sink().bytes()[..], ALPHABET);
}

#[test]
fn seek_from_end_is_refused() {
    let mut tee = slow_tee(ALPHABET);
    tee.seek(SeekFrom::Start(2)).unwrap();
    let r = tee.seek(SeekFrom::End(0));
    assert!(matches!(r, Err(TeeError::Seek(SeekError::EndRelative))));
    assert_eq!(tee.cursor(), 2);
    assert_eq!(&tee.sink().bytes()[..], b"ab");
}

#[test]
fn seek_before_start_is_refused() {
    let mut tee = slow_tee(ALPHABET);
    tee.seek(SeekFrom::Start(2)).unwrap();
    let r = tee.seek(SeekFrom::Current(-3));
    assert!(matches!(r, Err(TeeError::Seek(SeekError::NegativeOffset))));
    assert_eq!(tee.cursor(), 2);
    assert_eq!(tee.high_water(), 2);
}

#[test]
fn seek_overflowing_i64_is_refused() {
    let mut tee = slow_tee(ALPHABET);
    tee.seek(SeekFrom::Start(5)).unwrap();
    let r = tee.seek(SeekFrom::Current(i64::MAX));
    assert!(matches!(r, Err(TeeError::Seek(SeekError::OffsetTooLarge))));
    assert_eq!(tee.cursor(), 5);
    assert_eq!(&tee.sink().bytes()[..], b"abcde");
}

#[test]
fn resolve_offsets() {
    assert_eq!(resolve(7, SeekFrom::Start(3)), Ok(3));
    assert_eq!(resolve(7, SeekFrom::Current(-7)), Ok(0));
    assert_eq!(resolve(7, SeekFrom::Current(5)), Ok(12));
    assert_eq!(resolve(7, SeekFrom::Current(-8)), Err(SeekError::NegativeOffset));
    assert_eq!(resolve(1, SeekFrom::Current(i64::MAX)), Err(SeekError::OffsetTooLarge));
    assert_eq!(resolve(0, SeekFrom::Current(i64::MAX)), Ok(i64::MAX as u64));
    assert_eq!(resolve(1u64 << 63, SeekFrom::Current(-1)), Err(SeekError::OffsetTooLarge));
    assert_eq!(resolve(0, SeekFrom::End(-1)), Err(SeekError::EndRelative));
}

#[test]
fn high_water_never_falls() {
    let mut tee = slow_tee(ALPHABET);
    let mut last = 0;
    let mut buf = [0u8; 3];
    for step in 0..12u64 {
        if step % 3 == 2 {
            tee.seek(SeekFrom::Start((step * 5) % 17)).ok();
        } else {
            tee.read(&mut buf).unwrap();
        }
        assert!(tee.high_water() >= last);
        assert!(tee.cursor() <= tee.high_water());
        let hw = tee.high_water() as usize;
        assert_eq!(&tee.sink().bytes()[..], &ALPHABET[..hw]);
        last = tee.high_water();
    }
}

#[test]
fn long_forward_seek_copies_every_byte_once() {
    let data: Vec<u8> = (0..20000u32).map(|i| (i % 251) as u8).collect();
    let mut tee = ShallowTees::new(MemSource::new(data.clone()), MemSink::new());
    assert_eq!(tee.seek(SeekFrom::Start(19000)).unwrap(), 19000);
    assert_eq!(&tee.sink().bytes()[..], &data[..19000]);
    assert_eq!(tee.seek(SeekFrom::Start(100)).unwrap(), 100);
    assert_eq!(tee.seek(SeekFrom::Start(20000)).unwrap(), 20000);
    assert_eq!(tee.sink().bytes(), &data);
}

#[test]
fn sink_keeps_bytes_it_held_before() {
    let mut sink = MemSink::new();
    sink.write_all(b"xy").unwrap();
    let mut tee = ShallowTees::new(MemSource::new(ALPHABET.to_vec()), sink);
    tee.seek(SeekFrom::Start(3)).unwrap();
    let (source, sink) = tee.into_inner();
    assert_eq!(&sink.bytes()[..], b"xyabc");
    drop(source);
}

#[test]
fn mem_source_refuses_seek_past_end() {
    let mut source = MemSource::new(b"abc".to_vec());
    assert_eq!(source.seek_to(4), Err(MemError::PastEnd));
    assert_eq!(source.seek_to(3), Ok(()));
    let mut buf = [0u8; 2];
    assert_eq!(source.read(&mut buf), Ok(0));
}

#[test]
fn read_to_end_then_zero_mirrors_everything() {
    let mut tee = ShallowTees::new(MemSource::with_chunk(ALPHABET.to_vec(), 5), MemSink::new());
    let mut buf = [0u8; 9];
    let mut total = 0usize;
    loop {
        let n = tee.read(&mut buf).unwrap();
        if n == 0 {
            break;
        }
        total += n;
    }
    assert_eq!(total, 16);
    assert_eq!(tee.high_water(), 16);
    assert_eq!(&tee.sink().bytes()[..], ALPHABET);
}
