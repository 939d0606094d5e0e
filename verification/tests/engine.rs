use dszru::crypto::Dszru;
use dszru::progress::{ProgressSink, RecordingSink, SilentSink};

fn encrypt_bytes(data: &[u8], key: &[u8]) -> Vec<u8> {
    let engine = Dszru::new(key);
    let mut buf = data.to_vec();
    let mut sink = SilentSink::new();
    engine.encrypt(&mut buf, &mut sink);
    buf
}

fn decrypt_bytes(data: &[u8], key: &[u8]) -> Vec<u8> {
    let engine = Dszru::new(key);
    let mut buf = data.to_vec();
    let mut sink = SilentSink::new();
    engine.decrypt(&mut buf, &mut sink);
    buf
}

#[test]
fn round_trip_multi_byte_key() {
    let key = [1u8, 2, 3];
    let data = b"The quick brown fox jumps over the lazy dog";
    let ct = encrypt_bytes(data, &key);
    assert_ne!(ct.as_slice(), data.as_slice());
    assert_eq!(decrypt_bytes(&ct, &key), data.to_vec());
}

#[test]
fn round_trip_all_byte_values() {
    let key = [0u8, 255, 128, 7];
    let data: Vec<u8> = (0u8..=255).collect();
    let ct = encrypt_bytes(&data, &key);
    assert_eq!(decrypt_bytes(&ct, &key), data);
}

#[test]
fn round_trip_single_byte_key() {
    // K = 1: every `mod K` is constantly zero, and the law still holds.
    let key = [7u8];
    let data = b"boundary: one-byte key";
    assert_eq!(decrypt_bytes(&encrypt_bytes(data, &key), &key), data.to_vec());
    let key = [0u8];
    assert_eq!(decrypt_bytes(&encrypt_bytes(data, &key), &key), data.to_vec());
}

#[test]
fn round_trip_single_byte_buffer() {
    // N = 1: the permutation stage degenerates to self-swaps.
    let key = [91u8, 4, 250];
    let data = [42u8];
    let ct = encrypt_bytes(&data, &key);
    assert_eq!(ct.len(), 1);
    assert_eq!(decrypt_bytes(&ct, &key), vec![42u8]);
}

#[test]
fn empty_buffer_unchanged() {
    // N = 0: no per-byte work; the buffer comes back empty.
    let key = [3u8, 141, 59];
    assert_eq!(encrypt_bytes(&[], &key), Vec::<u8>::new());
    assert_eq!(decrypt_bytes(&[], &key), Vec::<u8>::new());
}

#[test]
fn encryption_is_deterministic() {
    let key = [11u8, 22, 33, 44];
    let data = b"same input, same output";
    let first = encrypt_bytes(data, &key);
    let second = encrypt_bytes(data, &key);
    assert_eq!(first, second);
}

#[test]
fn round_count_is_a_function_of_the_key_alone() {
    // Two engines over the same key run the same number of rounds, whatever
    // the buffer; a different key may run a different number.
    let key = [1u8, 2, 3];
    let mut sink_a = RecordingSink::new();
    let mut sink_b = RecordingSink::new();
    let mut short = vec![5u8];
    let mut long = vec![9u8; 100];
    Dszru::new(&key).encrypt(&mut short, &mut sink_a);
    Dszru::new(&key).encrypt(&mut long, &mut sink_b);
    assert_eq!(sink_a.calls.len(), sink_b.calls.len());
}

#[test]
fn round_count_exact_values() {
    // The complements of 1, 2, 3 sum to 247, which is already >= 128.
    let mut sink = RecordingSink::new();
    Dszru::new(&[1u8, 2, 3]).encrypt(&mut vec![0u8], &mut sink);
    assert_eq!(sink.calls.len(), 247);
    // The complement of 127 is exactly 128: the lower bound is reached.
    let mut sink = RecordingSink::new();
    Dszru::new(&[127u8]).encrypt(&mut vec![0u8], &mut sink);
    assert_eq!(sink.calls.len(), 128);
    // The complements of 255, 255 sum to 0, which is re-complemented to 255.
    let mut sink = RecordingSink::new();
    Dszru::new(&[255u8, 255]).encrypt(&mut vec![0u8], &mut sink);
    assert_eq!(sink.calls.len(), 255);
}

#[test]
fn encrypt_reports_every_round_ascending() {
    let key = [127u8];
    let mut sink = RecordingSink::new();
    let mut buf = b"progress".to_vec();
    Dszru::new(&key).encrypt(&mut buf, &mut sink);
    assert_eq!(sink.calls.len(), 128);
    for (i, call) in sink.calls.iter().enumerate() {
        assert_eq!(*call, (i as u8, 128));
    }
}

#[test]
fn decrypt_reports_every_round_descending() {
    let key = [127u8];
    let mut sink = RecordingSink::new();
    let mut buf = b"progress".to_vec();
    Dszru::new(&key).decrypt(&mut buf, &mut sink);
    assert_eq!(sink.calls.len(), 128);
    for (i, call) in sink.calls.iter().enumerate() {
        assert_eq!(*call, (127 - i as u8, 128));
    }
}

#[test]
fn progress_reported_even_for_empty_buffer() {
    let key = [1u8, 2, 3];
    let mut sink = RecordingSink::new();
    let mut buf = Vec::new();
    Dszru::new(&key).encrypt(&mut buf, &mut sink);
    assert_eq!(sink.calls.len(), 247);
}

#[test]
fn flipping_one_input_byte_moves_exactly_one_output_byte() {
    // The substitution is byte-local and the swap chain's positions depend on
    // the key alone, so a one-byte difference stays a one-byte difference; it
    // is only relocated and re-substituted.
    let key = [9u8, 77, 200, 5];
    let a: Vec<u8> = (0u8..64).collect();
    let mut b = a.clone();
    b[10] ^= 0x01;
    let ca = encrypt_bytes(&a, &key);
    let cb = encrypt_bytes(&b, &key);
    assert_ne!(ca, cb);
    let differing = ca.iter().zip(cb.iter()).filter(|(x, y)| x != y).count();
    assert_eq!(differing, 1);
}

#[test]
fn pinned_regression_vector() {
    // A fixed key and buffer with their once-computed ciphertext: re-running
    // encryption must reproduce it exactly, and decryption must invert it.
    let key = [1u8, 2, 3];
    let plain = b"Hello, dszru!".to_vec();
    let pinned: Vec<u8> = vec![14, 141, 195, 230, 107, 193, 182, 221, 212, 10, 108, 216, 177];
    assert_eq!(encrypt_bytes(&plain, &key), pinned);
    assert_eq!(decrypt_bytes(&pinned, &key), plain);
}

#[test]
fn cursor_steps_back_with_wraparound() {
    let key = [5u8, 3];
    let engine = Dszru::new(&key);
    let data = [0u8; 4];
    // Stepping back from key index 1 lands on key index 0; the buffer cursor
    // retreats by key[0] = 5, wrapping modulo 4: (0 - 5) mod 4 == 3.
    let mut key_index = 1usize;
    let mut byte_index = 0usize;
    engine.decrypt_byte_move_counter(&mut key_index, &mut byte_index, &data);
    assert_eq!(key_index, 0);
    assert_eq!(byte_index, 3);
    // Stepping back from key index 0 wraps to the key's last index; the
    // buffer cursor retreats by key[1] = 3: (2 - 3) mod 4 == 3.
    let mut key_index = 0usize;
    let mut byte_index = 2usize;
    engine.decrypt_byte_move_counter(&mut key_index, &mut byte_index, &data);
    assert_eq!(key_index, 1);
    assert_eq!(byte_index, 3);
}

#[test]
fn round_trip_key_longer_than_buffer() {
    // k > n: most key indices are consumed zero times by one permutation
    // round's closed-form reconstruction.
    let key = [200u8, 13, 77, 4, 91, 6, 250, 33, 18, 127];
    let data = [9u8, 8, 7];
    let ct = encrypt_bytes(&data, &key);
    assert_eq!(decrypt_bytes(&ct, &key), data.to_vec());
}

#[test]
fn round_trip_key_with_equal_bytes() {
    let key = [42u8, 42, 42, 42];
    let data = b"equal key bytes";
    let ct = encrypt_bytes(data, &key);
    assert_eq!(decrypt_bytes(&ct, &key), data.to_vec());
}

#[test]
fn silent_and_recording_sinks_agree_on_the_transform() {
    let key = [8u8, 16, 32];
    let data = b"sink choice must not change bytes";
    let engine = Dszru::new(&key);
    let mut with_silent = data.to_vec();
    let mut with_recording = data.to_vec();
    let mut silent = SilentSink::new();
    let mut recording = RecordingSink::new();
    engine.encrypt(&mut with_silent, &mut silent);
    engine.encrypt(&mut with_recording, &mut recording);
    assert_eq!(with_silent, with_recording);
}

#[test]
fn sink_history_appends_one_report_per_call() {
    let mut sink = RecordingSink::new();
    sink.on_round(3, 200);
    sink.on_round(4, 200);
    assert_eq!(sink.calls, vec![(3u8, 200u8), (4u8, 200u8)]);
}
