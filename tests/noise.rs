use rdir::noise::{
    next_handshake_step,
    handshake_absorb, handshake_frame, handshake_step, HandshakeStep, InputOutcome, NoiseStream, ReadDemand,
    ReadState, WriteState, MAX_PAYLOAD_LEN,
};
use rdir::framing::FramedStream;

/// Runs a handshake between two states, passing frames in memory.
fn handshake(mut a: snow::HandshakeState, mut b: snow::HandshakeState) -> (NoiseStream<()>, NoiseStream<()>) {
    loop {
        match (handshake_step(&a), handshake_step(&b)) {
            (HandshakeStep::Done, HandshakeStep::Done) => break,
            (HandshakeStep::Send, _) => {
                let frame = handshake_frame(&mut a).unwrap();
                let (body, _) = FramedStream::<()>::unframe(&frame).unwrap();
                handshake_absorb(&mut b, &body).unwrap();
            }
            (_, HandshakeStep::Send) => {
                let frame = handshake_frame(&mut b).unwrap();
                let (body, _) = FramedStream::<()>::unframe(&frame).unwrap();
                handshake_absorb(&mut a, &body).unwrap();
            }
            other => panic!("handshake stuck: {other:?}"),
        }
    }
    (NoiseStream::from_handshake((), a).unwrap(), NoiseStream::from_handshake((), b).unwrap())
}

/// Sends `data` in writes of the given sizes; returns the bytes on the wire.
fn send(stream: &mut NoiseStream<()>, data: &[u8], chunks: &[usize]) -> Vec<u8> {
    let mut wire = Vec::new();
    let mut at = 0;
    let mut k = 0;
    while at < data.len() {
        let want = chunks[k % chunks.len()].min(data.len() - at);
        k += 1;
        let n = stream.begin_write(&data[at..at + want]).ok().unwrap();
        loop {
            let (frame, start) = stream.pending_frame();
            // move at most 1000 bytes at a time, as a socket may
            let step = (frame.len() - start).min(1000);
            wire.extend_from_slice(&frame[start..start + step]);
            if let Some(done) = stream.frame_written(step) {
                assert_eq!(done, n);
                break;
            }
        }
        at += n;
    }
    wire
}

/// Reads `len` plaintext bytes from `wire` starting at `*at`, in reads of
/// at most `max`.
fn receive_from(stream: &mut NoiseStream<()>, wire: &[u8], at: &mut usize, len: usize, max: usize) -> Vec<u8> {
    let mut out = Vec::new();
    while out.len() < len {
        match stream.read_demand().ok().unwrap() {
            ReadDemand::Input(n) => {
                let step = n.min(wire.len() - *at).min(777);
                assert_eq!(stream.read_input(&wire[*at..*at + step]), InputOutcome::Progress);
                *at += step;
            }
            ReadDemand::Ready(_) => out.extend(stream.take_payload(max.min(len - out.len()))),
            ReadDemand::Closed => panic!("closed early"),
        }
    }
    out
}

fn receive(stream: &mut NoiseStream<()>, wire: &[u8], len: usize, max: usize) -> Vec<u8> {
    let mut at = 0;
    receive_from(stream, wire, &mut at, len, max)
}

fn nn_pair(pattern: &str) -> (NoiseStream<()>, NoiseStream<()>) {
    let initiator = snow::Builder::new(pattern.parse().unwrap()).build_initiator().unwrap();
    let responder = snow::Builder::new(pattern.parse().unwrap()).build_responder().unwrap();
    handshake(initiator, responder)
}

fn kk_pair(pattern: &str) -> (NoiseStream<()>, NoiseStream<()>) {
    let client_key = snow::Builder::new(pattern.parse().unwrap()).generate_keypair().unwrap();
    let server_key = snow::Builder::new(pattern.parse().unwrap()).generate_keypair().unwrap();
    let initiator = snow::Builder::new(pattern.parse().unwrap())
        .local_private_key(&client_key.private)
        .remote_public_key(&server_key.public)
        .build_initiator()
        .unwrap();
    let responder = snow::Builder::new(pattern.parse().unwrap())
        .local_private_key(&server_key.private)
        .remote_public_key(&client_key.public)
        .build_responder()
        .unwrap();
    handshake(initiator, responder)
}

#[test]
fn snow() {
    let (initiator, responder) = nn_pair("Noise_NN_25519_ChaChaPoly_BLAKE2s");
    assert_eq!(initiator.read_state(), ReadState::Idle);
    assert_eq!(responder.write_state(), WriteState::Idle);
}

#[test]
fn tcp() {
    let (mut client, mut server) = kk_pair("Noise_KK_25519_ChaChaPoly_BLAKE2s");
    let payload = (0..0x20000).map(|a| a as u8).collect::<Vec<_>>();
    let wire = send(&mut client, &payload, &[usize::MAX]);
    let got = receive(&mut server, &wire, 0x20000, 0x20000);
    got.iter().enumerate().for_each(|(i, v)| {
        assert_eq!(i as u8, *v);
    });
}

#[test]
fn tcp_read_twice() {
    let (mut client, mut server) = kk_pair("Noise_KK_25519_ChaChaPoly_BLAKE2s");
    let payload = (0..0x20000).map(|a| a as u8).collect::<Vec<_>>();
    let wire = send(&mut client, &payload, &[usize::MAX]);
    let mut at = 0;
    let payload1 = receive_from(&mut server, &wire, &mut at, 0x10000, 0x10000);
    let payload2 = receive_from(&mut server, &wire, &mut at, 0x10000, 0x10000);
    payload1.iter().chain(payload2.iter()).enumerate().for_each(|(i, v)| {
        assert_eq!(i as u8, *v);
    });
}

#[test]
fn noise_channel_heterogeneous_chunks() {
    let (mut a, mut b) = nn_pair("Noise_NN_25519_AESGCM_BLAKE2b");
    // 128 KiB and a bit, so the last frame is partial
    let data: Vec<u8> = (0..(128 * 1024 + 333)).map(|i| (i % 251) as u8).collect();
    let wire = send(&mut a, &data, &[1, 100, 4096, 70000, 65519, 3]);
    let got = receive(&mut b, &wire, data.len(), 5000);
    assert_eq!(got, data);
    // and the other direction
    let back = send(&mut b, &data[..1000], &[999]);
    assert_eq!(receive(&mut a, &back, 1000, 1000), data[..1000].to_vec());
}

#[test]
fn writes_are_capped_at_one_frame() {
    let (mut a, _b) = nn_pair("Noise_NN_25519_AESGCM_BLAKE2b");
    let big = vec![7u8; 100_000];
    let n = a.begin_write(&big).ok().unwrap();
    assert_eq!(n, MAX_PAYLOAD_LEN);
    let (frame, start) = a.pending_frame();
    assert_eq!(start, 0);
    assert_eq!(frame.len(), 2 + 65535);
    assert_eq!(&frame[..2], &[0xff, 0xff]);
}

#[test]
fn eof_between_frames_and_inside_a_frame() {
    let (mut a, mut b) = nn_pair("Noise_NN_25519_AESGCM_BLAKE2b");
    assert_eq!(b.read_demand().ok().unwrap(), ReadDemand::Input(2));
    assert_eq!(b.read_input(&[]), InputOutcome::Eof);
    assert_eq!(b.read_demand().ok().unwrap(), ReadDemand::Closed);
    assert_eq!(b.read_demand().ok().unwrap(), ReadDemand::Closed);

    let wire = send(&mut a, b"hello", &[5]);
    let (_, mut c) = nn_pair("Noise_NN_25519_AESGCM_BLAKE2b");
    assert_eq!(c.read_demand().ok().unwrap(), ReadDemand::Input(2));
    assert_eq!(c.read_input(&wire[..2]), InputOutcome::Progress);
    assert_eq!(c.read_demand().ok().unwrap(), ReadDemand::Input(5 + 16));
    assert_eq!(c.read_input(&[]), InputOutcome::Truncated);
}

#[test]
fn tampered_frame_fails_and_closes() {
    let (mut a, mut b) = nn_pair("Noise_NN_25519_AESGCM_BLAKE2b");
    let mut wire = send(&mut a, b"secret", &[6]);
    let last = wire.len() - 1;
    wire[last] ^= 1;
    assert_eq!(b.read_demand().ok().unwrap(), ReadDemand::Input(2));
    b.read_input(&wire[..2]);
    let n = match b.read_demand().ok().unwrap() {
        ReadDemand::Input(n) => n,
        other => panic!("{other:?}"),
    };
    b.read_input(&wire[2..2 + n]);
    assert!(b.read_demand().is_err());
    assert_eq!(b.read_state(), ReadState::ShuttingDown);
}

#[test]
fn closed_writer_refuses() {
    let (mut a, _b) = nn_pair("Noise_NN_25519_AESGCM_BLAKE2b");
    a.shutdown_write();
    assert_eq!(a.write_state(), WriteState::ShuttingDown);
}

#[test]
fn handshake_steps_follow_turns() {
    assert_eq!(next_handshake_step(true, true), HandshakeStep::Done);
    assert_eq!(next_handshake_step(true, false), HandshakeStep::Done);
    assert_eq!(next_handshake_step(false, true), HandshakeStep::Send);
    assert_eq!(next_handshake_step(false, false), HandshakeStep::Receive);
    let initiator = snow::Builder::new("Noise_NN_25519_AESGCM_BLAKE2b".parse().unwrap()).build_initiator().unwrap();
    let responder = snow::Builder::new("Noise_NN_25519_AESGCM_BLAKE2b".parse().unwrap()).build_responder().unwrap();
    assert_eq!(handshake_step(&initiator), HandshakeStep::Send);
    assert_eq!(handshake_step(&responder), HandshakeStep::Receive);
}
