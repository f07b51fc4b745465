use hashline::noop_guard::{fingerprint, NoopGuard};


#[test]
fn noop_loop_fires_after_three_identical() {
    let mut g = NoopGuard::new(3);
    let fp = fingerprint("SWAP 2:\n+same");

    assert_eq!(g.record("a.txt", fp, true), Ok(1));
    assert_eq!(g.record("a.txt", fp, true), Ok(2));
    assert_eq!(g.record("a.txt", fp, true), Err(3));
}

#[test]
fn real_change_resets_streak() {
    let mut g = NoopGuard::new(3);
    let fp = fingerprint("SWAP 2:\n+same");

    assert_eq!(g.record("a.txt", fp, true), Ok(1));
    // A real change (was_noop=false) resets the streak.
    assert_eq!(g.record("a.txt", fp, false), Ok(0));
    assert_eq!(g.record("a.txt", fp, true), Ok(1));
}

#[test]
fn different_patch_resets_streak() {
    let mut g = NoopGuard::new(3);
    assert_eq!(g.record("a.txt", fingerprint("SWAP 2:\n+x"), true), Ok(1));
    assert_eq!(g.record("a.txt", fingerprint("SWAP 3:\n+y"), true), Ok(1));
    assert_eq!(g.record("a.txt", fingerprint("DEL 2"), true), Ok(1));
}

#[test]
fn different_path_independent() {
    let mut g = NoopGuard::new(3);
    let fp = fingerprint("SWAP 2:\n+same");
    assert_eq!(g.record("a.txt", fp, true), Ok(1));
    assert_eq!(g.record("b.txt", fp, true), Ok(1));
    assert_eq!(g.record("b.txt", fp, true), Ok(2));
}

#[test]
fn reset_clears_path() {
    let mut g = NoopGuard::new(3);
    let fp = fingerprint("SWAP 2:\n+same");
    assert_eq!(g.record("a.txt", fp, true), Ok(1));
    g.reset("a.txt");
    assert_eq!(g.record("a.txt", fp, true), Ok(1));
}
