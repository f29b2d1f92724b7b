use agent_core::capture::capture_chunk;

fn capture_all(chunks: &[&[u8]], max: usize) -> (Vec<u8>, bool) {
    let mut buf: Vec<u8> = Vec::new();
    let mut truncated = false;
    for chunk in chunks {
        truncated = capture_chunk(&mut buf, truncated, chunk, max);
    }
    (buf, truncated)
}

#[test]
fn capture_keeps_everything_under_the_cap() {
    let (buf, truncated) = capture_all(&[b"hello ", b"world"], 64);
    assert_eq!(buf, b"hello world".to_vec());
    assert!(!truncated);
}

#[test]
fn capture_clips_at_the_cap_and_flags_it() {
    let (buf, truncated) = capture_all(&[b"hello ", b"world"], 8);
    assert_eq!(buf, b"hello wo".to_vec());
    assert!(truncated);
}

#[test]
fn captured_bytes_are_a_prefix_of_what_arrived() {
    let chunks: [&[u8]; 3] = [b"abc", b"defg", b"hij"];
    let all: Vec<u8> = chunks.concat();
    for max in 0..=all.len() + 2 {
        let (buf, truncated) = capture_all(&chunks, max);
        assert_eq!(&all[..buf.len()], buf.as_slice());
        assert!(buf.len() <= max);
        if !truncated {
            assert_eq!(buf, all);
        } else {
            assert_eq!(buf.len(), max);
        }
    }
}

#[test]
fn a_full_buffer_stays_flagged() {
    let mut buf: Vec<u8> = Vec::new();
    let truncated = capture_chunk(&mut buf, false, b"abcd", 4);
    assert!(!truncated);
    let truncated = capture_chunk(&mut buf, truncated, b"e", 4);
    assert!(truncated);
    assert_eq!(buf, b"abcd".to_vec());
}
