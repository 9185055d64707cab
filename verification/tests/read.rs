use chronicle_storage::codec::{push_le, read_le};
use chronicle_storage::error::StorageError;
use chronicle_storage::read::{begin_fill, read_exact_or_eof, Fill, ReadEvent};

fn fill(sizes: &[usize], wanted: usize) -> Fill {
    let mut state = begin_fill(wanted);
    for n in sizes {
        if let Fill::Reading { filled } = state {
            state = read_exact_or_eof(filled, wanted, ReadEvent::Read(*n)).unwrap();
        }
    }
    state
}

#[test]
fn short_reads_add_up() {
    assert_eq!(fill(&[1, 2, 1], 4), Fill::Full);
    assert_eq!(fill(&[4], 4), Fill::Full);
    assert_eq!(fill(&[1, 2], 4), Fill::Reading { filled: 3 });
}

#[test]
fn nothing_wanted_is_full_at_once() {
    assert_eq!(begin_fill(0), Fill::Full);
    assert_eq!(begin_fill(3), Fill::Reading { filled: 0 });
}

#[test]
fn clean_end_differs_from_torn_end() {
    assert_eq!(fill(&[0], 4), Fill::CleanEof);
    assert_eq!(fill(&[1, 0], 4), Fill::Torn);
}

#[test]
fn interruption_changes_nothing() {
    let state = read_exact_or_eof(2, 4, ReadEvent::Interrupted).unwrap();
    assert_eq!(state, Fill::Reading { filled: 2 });
}

#[test]
fn failure_is_passed_on() {
    let error = std::io::Error::new(std::io::ErrorKind::Other, "disk on fire");
    match read_exact_or_eof(2, 4, ReadEvent::Failed(error)) {
        Err(StorageError::Io(e)) => assert_eq!(e.to_string(), "disk on fire"),
        other => panic!("unexpected {other:?}"),
    }
}

#[test]
fn little_endian_integers() {
    let mut out = vec![7];
    push_le(&mut out, 0x0102030405060708, 8);
    push_le(&mut out, 0x1_0000_0002, 4);
    assert_eq!(out, vec![7, 8, 7, 6, 5, 4, 3, 2, 1, 2, 0, 0, 0]);
    assert_eq!(read_le(&out, 1, 8), 0x0102030405060708);
    assert_eq!(read_le(&out, 9, 4), 2);
    assert_eq!(read_le(&out, 0, 0), 0);
}
