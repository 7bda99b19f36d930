use replite::stream::{baton_bytes, check_baton, StreamRegistry, STREAM_TTL_MS, SWEEP_INTERVAL_MS};

fn registry() -> StreamRegistry<u32> {
    StreamRegistry::new()
}

#[test]
fn baton_roundtrip_and_reuse_protection() {
    let mut registry = registry();

    let guard = registry.acquire(None, || Ok(1), 0).unwrap();
    let baton = guard.release(&mut registry, false, 0).unwrap();
    assert!(!baton.is_empty());

    // the returned baton acquires the same stream
    let guard2 = registry.acquire(Some(&baton), || unreachable!(), 1).unwrap();
    assert_eq!(*guard2.handle(), 1);
    // reusing the SAME baton must fail (sequence advanced)
    let err = registry.acquire(Some(&baton), || unreachable!(), 1).err().unwrap();
    assert!(err.message.contains("BATON_REUSED") || err.code == "BATON_INVALID", "{err:?}");
    let baton2 = guard2.release(&mut registry, false, 2).unwrap();
    assert_ne!(baton, baton2);

    // closing the stream yields no baton and the stream is gone
    let guard3 = registry.acquire(Some(&baton2), || unreachable!(), 3).unwrap();
    assert!(guard3.release(&mut registry, true, 3).is_none());
    let err = registry.acquire(Some(&baton2), || unreachable!(), 3).err().unwrap();
    assert_eq!(err.code, "BATON_INVALID");
}

#[test]
fn forged_baton_rejected() {
    let mut registry = registry();
    let err = registry.acquire(Some("AAAA"), || unreachable!(), 0).err().unwrap();
    assert_eq!(err.code, "BATON_INVALID");
}

#[test]
fn expiry_drops_idle_streams() {
    let mut registry = registry();
    let guard = registry.acquire(None, || Ok(1), 0).unwrap();
    let baton = guard.release(&mut registry, false, 0).unwrap();

    // idle > TTL
    registry.expire(STREAM_TTL_MS + 1000);
    let err = registry.acquire(Some(&baton), || unreachable!(), 0).err().unwrap();
    assert_eq!(err.code, "BATON_INVALID", "expired stream must be gone");
}

#[test]
fn streams_in_time_are_kept() {
    let mut registry = registry();
    let guard = registry.acquire(None, || Ok(1), 0).unwrap();
    let old = guard.release(&mut registry, false, 5).unwrap();
    let guard = registry.acquire(None, || Ok(2), 0).unwrap();
    let new = guard.release(&mut registry, false, 6).unwrap();
    registry.expire(STREAM_TTL_MS + 5);
    registry.expire(0);
    registry.expire(STREAM_TTL_MS + 6);
    assert!(registry.acquire(Some(&old), || unreachable!(), 0).is_err());
    assert_eq!(*registry.acquire(Some(&new), || unreachable!(), 0).unwrap().handle(), 2);
    assert_eq!((STREAM_TTL_MS, SWEEP_INTERVAL_MS), (10_000, 2_000));
}

#[test]
fn a_late_baton_is_reported_as_reused() {
    let mut registry = registry();
    let guard = registry.acquire(None, || Ok(1), 0).unwrap();
    let first = guard.release(&mut registry, false, 0).unwrap();
    let (id, seq) = registry.decode_baton(&first).unwrap();
    let guard = registry.acquire(Some(&first), || unreachable!(), 0).unwrap();
    guard.release(&mut registry, false, 0).unwrap();
    let err = registry.acquire(Some(&first), || unreachable!(), 0).err().unwrap();
    assert_eq!(err.status, 400);
    assert_eq!(err.code, "BATON_REUSED");
    assert_eq!(
        err.message,
        format!("expected baton seq {}, received {seq}", seq.wrapping_add(1))
    );
    // the stream is dropped with it
    let err = registry.acquire(Some(&first), || unreachable!(), 0).err().unwrap();
    assert_eq!(err.message, format!("stream {id} not found"));
}

#[test]
fn batons_say_what_they_were_made_for() {
    let registry = registry();
    for (id, seq) in [(0, 0), (1, u64::MAX), (0x0102030405060708, 9)] {
        let baton = registry.encode_baton(id, seq);
        assert_eq!(baton.len(), 64);
        assert_eq!(registry.decode_baton(&baton).unwrap(), (id, seq));
    }
}

#[test]
fn batons_of_another_key_are_refused() {
    let baton = registry().encode_baton(1, 2);
    let err = registry().decode_baton(&baton).err().unwrap();
    assert_eq!(err.code, "BATON_INVALID");
    assert_eq!(err.message, "invalid MAC on baton");
    let mut forged = baton.clone();
    let last = if forged.pop() == Some('A') { 'B' } else { 'A' };
    forged.push(last);
    assert!(registry().decode_baton(&forged).is_err());
    let err = registry().decode_baton("?").err().unwrap();
    assert_eq!(err.message, "cannot base64-decode baton");
    let err = registry().decode_baton("AAAA").err().unwrap();
    assert_eq!(err.message, "baton has invalid size of 3 bytes");
}

#[test]
fn decoded_batons_are_read() {
    let data = baton_bytes(0x0102030405060708, 3, &[7; 32]);
    assert_eq!(data.len(), 48);
    assert_eq!(&data[..9], &[1, 2, 3, 4, 5, 6, 7, 8, 0]);
    assert_eq!(check_baton(&Some(data.clone()), true).unwrap(), (0x0102030405060708, 3));
    assert_eq!(check_baton(&Some(data), false).err().unwrap().message, "invalid MAC on baton");
    assert_eq!(check_baton(&None, true).err().unwrap().status, 400);
}

#[test]
fn the_mac_is_hmac_sha256() {
    // two registries differ in their keys, so in their batons
    assert_ne!(registry().encode_baton(1, 1), registry().encode_baton(1, 1));
    let one = registry();
    assert_eq!(one.encode_baton(1, 1), one.encode_baton(1, 1));
    assert_ne!(one.encode_baton(1, 1), one.encode_baton(1, 2));
}

#[test]
fn a_connection_that_fails_is_an_internal_error() {
    let mut registry = registry();
    let err = registry.acquire(None, || Err("cannot open".to_string()), 0).err().unwrap();
    assert_eq!((err.status, err.code.as_str()), (500, "INTERNAL_ERROR"));
    assert_eq!(err.message, "cannot open");
}

#[test]
fn ids_that_are_taken_are_passed_over() {
    let mut registry = registry();
    let guard = registry.open(1, u64::MAX, 5, 0);
    let baton = guard.release(&mut registry, false, 0).unwrap();
    assert_eq!(registry.decode_baton(&baton).unwrap(), (u64::MAX, 6));
    let guard = registry.open(2, u64::MAX, u64::MAX, 0);
    let baton = guard.release(&mut registry, false, 0).unwrap();
    assert_eq!(registry.decode_baton(&baton).unwrap(), (0, 0));
    assert_eq!(*registry.claim(u64::MAX, 6).unwrap().handle(), 1);
}

#[test]
fn a_used_baton_stays_useless() {
    let mut registry = registry();
    let guard = registry.acquire(None, || Ok(1), 0).unwrap();
    let mut batons = vec![guard.release(&mut registry, false, 0).unwrap()];
    for now in 1..20 {
        let guard = registry.acquire(batons.last().map(|b| b.as_str()), || unreachable!(), now);
        batons.push(guard.unwrap().release(&mut registry, false, now).unwrap());
    }
    let last = batons.pop().unwrap();
    let err = registry.acquire(Some(&batons[3]), || unreachable!(), 30).err().unwrap();
    assert_eq!((err.status, err.code.as_str()), (400, "BATON_REUSED"));
    for baton in batons.iter().chain([&last]) {
        let err = registry.acquire(Some(baton), || unreachable!(), 30).err().unwrap();
        assert_eq!((err.status, err.code.as_str()), (400, "BATON_INVALID"));
    }
}

#[test]
fn a_used_baton_stays_useless_where_its_id_is_drawn_again() {
    let mut registry = registry();
    let baton = registry.open(1, 9, 5, 0).release(&mut registry, false, 0).unwrap();
    let guard = registry.acquire(Some(&baton), || unreachable!(), 0).unwrap();
    assert!(guard.release(&mut registry, true, 0).is_none());
    let other = registry.open(2, 9, 50, 0).release(&mut registry, false, 0).unwrap();
    assert_eq!(registry.decode_baton(&other).unwrap(), (9, 51));
    let err = registry.acquire(Some(&baton), || unreachable!(), 0).err().unwrap();
    assert_eq!((err.status, err.code.as_str()), (400, "BATON_REUSED"));
}
