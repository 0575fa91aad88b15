use polycomp::fnvhasher::{FnvHasher, FnvState};

#[test]
fn fnv_known_values() {
    let h = FnvHasher;
    assert_eq!(h.hash(b""), 0xcbf29ce484222325);
    assert_eq!(h.hash(b"a"), 0xaf63dc4c8601ec8c);
    assert_eq!(h.hash(b"foobar"), 0x85944171f73967e8);
}

#[test]
fn fnv_state_streams() {
    let mut s = FnvState::new();
    s.write(b"foo");
    s.write(b"bar");
    assert_eq!(s.finish(), 0x85944171f73967e8);
    assert_eq!(s, FnvState(0x85944171f73967e8));
}
