use deflate::deflate::inflate::Status;
use deflate::{InflateError, Inflater};
use miniz_oxide::deflate::{compress_to_vec, compress_to_vec_zlib};

fn inflate_all(data: &[u8]) -> (Vec<u8>, Status) {
    let mut inflater = Inflater::new(data);
    let mut out = Vec::new();
    let mut buf = [0u8; 1000];
    loop {
        let (n, status) = inflater.read(&mut buf[..]);
        out.extend_from_slice(&buf[..n]);
        if status != Status::Filled {
            return (out, status);
        }
    }
}

/// Numbers that look random, the same on every run.
fn numbers(seed: u64) -> impl FnMut() -> u64 {
    let mut x = seed;
    move || {
        x = x.wrapping_mul(6364136223846793005).wrapping_add(1442695040888963407);
        x >> 33
    }
}

fn noise(len: usize, seed: u64) -> Vec<u8> {
    let mut next = numbers(seed);
    (0..len).map(|_| next() as u8).collect()
}

fn words(len: usize, seed: u64) -> Vec<u8> {
    let list = [
        "the", "of", "and", "to", "in", "is", "that", "it", "was", "for", "on", "are", "as",
        "with", "his", "they", "at", "be", "this", "from", "have", "or", "by", "one",
    ];
    let mut next = numbers(seed);
    let mut out = Vec::new();
    while out.len() < len {
        out.extend_from_slice(list[next() as usize % list.len()].as_bytes());
        out.push(if next() % 7 == 0 { b'\n' } else { b' ' });
    }
    out.truncate(len);
    out
}

fn runs(len: usize, seed: u64) -> Vec<u8> {
    let mut next = numbers(seed);
    let mut out = Vec::new();
    while out.len() < len {
        let byte = next() as u8;
        for _ in 0..1 + next() % 400 {
            out.push(byte);
        }
    }
    out.truncate(len);
    out
}

fn samples() -> Vec<Vec<u8>> {
    let mut samples = vec![
        vec![],
        vec![0],
        vec![255],
        b"a".to_vec(),
        b"Hello, World!\n".to_vec(),
        vec![b'x'; 258],
        vec![b'x'; 259],
        vec![0; 100000],
        (0..=255).collect(),
    ];
    for (i, &len) in [1usize, 2, 3, 7, 64, 300, 1000, 4096, 33000, 70000].iter().enumerate() {
        samples.push(noise(len, i as u64));
        samples.push(words(len, i as u64 + 100));
        samples.push(runs(len, i as u64 + 200));
    }
    let mut echo = words(20000, 7);
    let again = echo.clone();
    echo.extend_from_slice(&noise(12000, 8));
    echo.extend_from_slice(&again);
    samples.push(echo);
    samples
}

/// What an encoder writes inflates to what it was given. The streams stand
/// in a zlib frame here: two bytes before them, a checksum behind them.
#[test]
fn inflating_inverts_an_encoder() {
    for sample in samples() {
        for level in 0..=10 {
            let framed = compress_to_vec_zlib(&sample, level);
            let (out, status) = inflate_all(&framed[2..]);
            assert_eq!(status, Status::EndOfStream);
            assert!(out == sample);
        }
    }
}

/// A stream with nothing behind it gives the same bytes as far as the
/// decoder gets, and all of them once the stream goes on as far as the
/// decoder looks.
#[test]
fn bare_streams_may_end_before_the_tables_have_looked() {
    let mut short = 0;
    for sample in samples() {
        for level in 0..=10 {
            let stream = compress_to_vec(&sample, level);
            let (out, status) = inflate_all(&stream);
            assert!(sample.starts_with(&out));
            if status == Status::EndOfStream {
                assert_eq!(out.len(), sample.len());
            } else {
                assert_eq!(status, Status::Failed(InflateError::UnexpectedEnd));
                short += 1;
            }
            let mut longer = stream;
            longer.extend_from_slice(&[0, 0]);
            let (out, status) = inflate_all(&longer);
            assert_eq!(status, Status::EndOfStream);
            assert!(out == sample);
        }
    }
    assert!(short > 0);
}

/// Inflating what an encoder makes of inflated data gives that data again.
#[test]
fn inflate_encode_inflate_with_an_encoder() {
    for (i, sample) in samples().iter().enumerate() {
        let first = compress_to_vec_zlib(sample, (i % 11) as u8);
        let (data, status) = inflate_all(&first[2..]);
        assert_eq!(status, Status::EndOfStream);
        for level in [0, 1, 6, 9] {
            let second = compress_to_vec_zlib(&data, level);
            let (again, status) = inflate_all(&second[2..]);
            assert_eq!(status, Status::EndOfStream);
            assert!(again == data);
        }
    }
}

/// Byte by byte and buffer by buffer the same bytes come out.
#[test]
fn next_byte_and_read_agree_on_encoder_streams() {
    for sample in samples().iter().filter(|sample| sample.len() <= 4096) {
        let framed = compress_to_vec_zlib(sample, 6);
        let mut inflater = Inflater::new(&framed[2..]);
        let mut out = Vec::new();
        while let Some(byte) = inflater.next_byte().unwrap() {
            out.push(byte);
        }
        assert!(out == *sample);
        assert_eq!(inflater.next_byte(), Ok(None));
    }
}
