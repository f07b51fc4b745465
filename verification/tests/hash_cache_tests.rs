use hashline::hash_cache::{root_marker, root_search_step, HashSidecar, RootAction, RootEvent, RootSearch, SidecarError};

#[test]
fn sidecar_bytes_round_trip() {
    let s = HashSidecar {
        mtime_secs: 1_700_000_000,
        size: 4096,
        content_hash: 0x0123_4567_89ab_cdef,
        short_hashes: vec![0x1f, 0xa0, 0x00, 0xff],
    };
    let bytes = s.to_bytes();
    assert_eq!(bytes.len(), 33 + 4);
    let back = HashSidecar::from_bytes(&bytes).unwrap();
    assert_eq!(back.mtime_secs, s.mtime_secs);
    assert_eq!(back.size, s.size);
    assert_eq!(back.content_hash, s.content_hash);
    assert_eq!(back.short_hashes, s.short_hashes);
}

#[test]
fn sidecar_layout_is_little_endian_after_magic() {
    let s = HashSidecar { mtime_secs: 0x0102, size: 3, content_hash: 0, short_hashes: vec![9] };
    let b = s.to_bytes();
    assert_eq!(&b[0..4], b"LHH3");
    assert_eq!(b[4], 1);
    assert_eq!(&b[5..13], &[0x02, 0x01, 0, 0, 0, 0, 0, 0]);
    assert_eq!(&b[13..21], &[3, 0, 0, 0, 0, 0, 0, 0]);
    assert_eq!(&b[29..33], &[1, 0, 0, 0]);
    assert_eq!(b[33], 9);
}

#[test]
fn sidecar_refuses_short_or_foreign_bytes() {
    assert_eq!(HashSidecar::from_bytes(b"LHH3").err(), Some(SidecarError::Invalid));
    let mut b = HashSidecar { mtime_secs: 1, size: 2, content_hash: 3, short_hashes: vec![] }.to_bytes();
    b[3] = b'2';
    assert_eq!(HashSidecar::from_bytes(&b).err(), Some(SidecarError::Invalid));
    assert_eq!(SidecarError::Invalid.message(), "invalid hash sidecar");
}

#[test]
fn sidecar_refuses_truncated_hashes() {
    let mut b = HashSidecar { mtime_secs: 1, size: 2, content_hash: 3, short_hashes: vec![7, 8, 9] }.to_bytes();
    b.pop();
    assert_eq!(HashSidecar::from_bytes(&b).err(), Some(SidecarError::Truncated));
    assert_eq!(SidecarError::Truncated.message(), "truncated hash sidecar");
}

#[test]
fn sidecar_ignores_extra_bytes_and_version() {
    let mut b = HashSidecar { mtime_secs: 5, size: 6, content_hash: 7, short_hashes: vec![1] }.to_bytes();
    b[4] = 9;
    b.push(42);
    let back = HashSidecar::from_bytes(&b).unwrap();
    assert_eq!(back.short_hashes, vec![1]);
    assert_eq!(back.mtime_secs, 5);
}

#[test]
fn root_search_asks_each_marker_then_climbs() {
    let (s, a) = root_search_step(RootSearch { level: 0, marker: 0 }, RootEvent::Began);
    assert_eq!(a, RootAction::Check(0));
    assert_eq!(root_marker(0), Some(".hashline"));
    let mut state = s;
    let mut action = a;
    let mut asked = Vec::new();
    while let RootAction::Check(i) = action {
        asked.push(root_marker(i).unwrap());
        let next = root_search_step(state, RootEvent::Checked(false));
        state = next.0;
        action = next.1;
    }
    assert_eq!(asked, vec![".hashline", ".git", ".hg", "Cargo.toml", "package.json", "pyproject.toml", "go.mod"]);
    assert_eq!(action, RootAction::Ascend);
    let (s2, a2) = root_search_step(state, RootEvent::Ascended(true));
    assert_eq!((s2, a2), (RootSearch { level: 1, marker: 0 }, RootAction::Check(0)));
    assert_eq!(root_search_step(s2, RootEvent::Checked(true)).1, RootAction::UseCurrent);
    assert_eq!(root_search_step(s2, RootEvent::Ascended(false)).1, RootAction::UseStart);
    assert_eq!(root_marker(7), None);
}

#[test]
fn root_search_gives_up_after_sixteen_directories() {
    let last = RootSearch { level: 15, marker: 6 };
    assert_eq!(root_search_step(last, RootEvent::Ascended(true)).1, RootAction::UseStart);
}
