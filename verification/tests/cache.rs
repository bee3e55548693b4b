use smartcut_core::cache::{eat, file_name, key, prune, Kept, SUM_START};

#[test]
fn bytes_are_summed() {
    assert_eq!(eat(SUM_START, b""), 0xcbf2_9ce4_8422_2325);
    assert_eq!(eat(SUM_START, b"a"), 0x1162_bb90_8601_ec8c);
    assert_eq!(eat(SUM_START, b"foobar"), 0x3fef_ab5e_f739_67e8);
}

#[test]
fn the_key_is_made_of_everything_that_tells_files_apart() {
    let k = key("a", 1, 2, &[9], 3);
    let mut all = b"a".to_vec();
    all.extend_from_slice(&1u64.to_le_bytes());
    all.extend_from_slice(&2u64.to_le_bytes());
    all.push(9);
    all.extend_from_slice(&3u32.to_le_bytes());
    assert_eq!(k, eat(SUM_START, &all));
}

#[test]
fn a_kept_file_carries_the_recordings_name() {
    assert_eq!(file_name("a b-c_d.e", 0x1f, "mp4"), "ab-c_de-000000000000001f.mp4");
    assert_eq!(file_name("番組 1", 0, "scix"), "番組1-0000000000000000.scix");
    let long = "x".repeat(50);
    assert_eq!(file_name(&long, 0, "mp4").len(), 40 + 1 + 16 + 4);
}

fn kept(when: i128, bytes: u64) -> Kept {
    Kept { when, bytes }
}

#[test]
fn the_least_recently_used_go_first() {
    let found = [kept(1, 10), kept(4, 10), kept(2, 10), kept(3, 10)];
    assert_eq!(prune(&found, 2, 1000), [true, false, true, false]);
    // Over budget after the second.
    assert_eq!(prune(&found, 10, 25), [true, false, true, false]);
}

#[test]
fn the_latest_stays_however_large() {
    assert_eq!(prune(&[kept(1, 1), kept(2, u64::MAX)], 0, 0), [true, false]);
}
