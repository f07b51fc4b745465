use hashline::index::trigram::{Trigram, TrigramIndex};
use hashline::index::zone::ZoneMap;

#[test]
fn test_trigram_from_slice() {
    let tris = Trigram::from_slice(b"hello");
    assert_eq!(tris.len(), 3);
    assert_eq!(tris[0].0, [b'h', b'e', b'l']);
}

#[test]
fn test_zone_map_empty() {
    let map = ZoneMap::from_bytes(b"", &[]);
    assert!(map.is_empty());
}

#[test]
fn test_zone_map_single_zone() {
    let content = b"hello world\n";
    let offsets = vec![0, 12];
    let map = ZoneMap::from_bytes(content, &offsets);
    assert_eq!(map.len(), 1);
    assert_eq!(map.zone_for_byte_offset(0), 0);
    assert_eq!(map.zone_for_line(0), 0);
}

#[test]
fn test_zone_for_line_oob() {
    let content = b"line1\nline2\n";
    let offsets = vec![0, 6, 12];
    let map = ZoneMap::from_bytes(content, &offsets);
    assert_eq!(map.zone_for_line(999), 0);
}

#[test]
fn test_trigram_index_build() {
    let content = "hello world\nfoo bar\n";
    let offsets = vec![0, 12, 20];
    let index = TrigramIndex::build_from_content(content, &offsets);
    assert!(index.trigram_count() > 0);
    assert!(index.lookup(Trigram::new(b'e', b'l', b'l')).is_some());
    assert!(index.lookup(Trigram::new(b'x', b'y', b'z')).is_none());
}

#[test]
fn test_candidate_lines() {
    let content = "hello world\nfoo bar\n";
    let offsets = vec![0, 12, 20];
    let index = TrigramIndex::build_from_content(content, &offsets);
    let tris = vec![Trigram::new(b'h', b'e', b'l'), Trigram::new(b'w', b'o', b'r')];
    let candidates = index.candidate_lines(&tris);
    let ones: Vec<_> = candidates.ones().collect();
    assert_eq!(ones, vec![0]);
}

#[test]
fn trigram_index_maps_each_trigram_to_its_lines() {
    let content = "abcd\nxbcd\nabc";
    let offsets = vec![0, 5, 10, 13];
    let index = TrigramIndex::build_from_content(content, &offsets);
    assert_eq!(index.line_count(), 3);
    let abc: Vec<_> = index.lookup(Trigram::new(b'a', b'b', b'c')).unwrap().ones().collect();
    assert_eq!(abc, vec![0, 2]);
    let bcd: Vec<_> = index.lookup(Trigram::new(b'b', b'c', b'd')).unwrap().ones().collect();
    assert_eq!(bcd, vec![0, 1]);
    // "d\nx" spans a line break, so it is not indexed.
    assert!(index.lookup(Trigram::new(b'd', b'\n', b'x')).is_none());
    // abc, bcd, "cd\n" (a line keeps its newline) and xbc.
    assert_eq!(index.trigram_count(), 4);
}

#[test]
fn candidate_lines_is_empty_for_no_query_or_a_missing_trigram() {
    let content = "abcd\nxbcd\nabc";
    let offsets = vec![0, 5, 10, 13];
    let index = TrigramIndex::build_from_content(content, &offsets);
    assert_eq!(index.candidate_lines(&[]).ones().count(), 0);
    assert_eq!(index.candidate_lines(&[]).len(), 3);
    let missing = [Trigram::new(b'a', b'b', b'c'), Trigram::new(b'q', b'q', b'q')];
    assert_eq!(index.candidate_lines(&missing).ones().count(), 0);
    let both: Vec<_> = index.candidate_lines(&[Trigram::new(b'a', b'b', b'c'), Trigram::new(b'b', b'c', b'd')]).ones().collect();
    assert_eq!(both, vec![0]);
}

#[test]
fn trigram_index_of_no_offsets_counts_one_line() {
    let index = TrigramIndex::build_from_content("abc", &[]);
    assert_eq!(index.line_count(), 1);
    assert_eq!(index.trigram_count(), 0);
}
