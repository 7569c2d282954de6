use everlasting::data::{File, Mode};
use everlasting::fs::{is_plain, Entry, Layout, Span};
use everlasting::writer::{Buffer, Writer};
use everlasting::data::GeneralError;
use everlasting::pwp::Message;

fn files() -> Mode {
    Mode::Multi {
        dir_name: "dir".to_string(),
        files: vec![
            File { length: 10, md5sum: None, path: vec!["a".to_string()] },
            File { length: 0, md5sum: None, path: vec!["b".to_string()] },
            File { length: 5, md5sum: None, path: vec!["sub".to_string(), "c".to_string()] },
        ],
        md5sum: None,
    }
}

#[test]
fn layout_of_a_directory() {
    let l = Layout::new(&files()).unwrap();
    assert_eq!(l.entries.len(), 3);
    assert_eq!(l.entries[0].path, vec!["dir".to_string(), "a".to_string()]);
    assert_eq!(
        l.entries[2].path,
        vec!["dir".to_string(), "sub".to_string(), "c".to_string()]
    );
    assert_eq!(
        l.entries.iter().map(|e| (e.offset, e.length)).collect::<Vec<_>>(),
        vec![(0, 10), (10, 0), (10, 5)]
    );
    assert_eq!(l.length(), 15);
    assert_eq!(l.locate(0), Some(0));
    assert_eq!(l.locate(9), Some(0));
    assert_eq!(l.locate(10), Some(2));
    assert_eq!(l.locate(14), Some(2));
    assert_eq!(l.locate(15), None);
    assert_eq!(
        l.spans(8, 7),
        vec![
            Span { file: 0, offset: 8, begin: 0, len: 2 },
            Span { file: 2, offset: 0, begin: 2, len: 5 }
        ]
    );
    assert_eq!(l.spans(3, 0), vec![]);
    assert_eq!(l.spans(11, 2), vec![Span { file: 2, offset: 1, begin: 0, len: 2 }]);
}

#[test]
fn layout_of_a_single_file() {
    let l = Layout::new(&Mode::Single { name: "f".to_string(), length: 7, md5sum: None }).unwrap();
    assert_eq!(l.entries.len(), 1);
    assert_eq!(l.entries[0].path, vec!["f".to_string()]);
    assert_eq!(l.length(), 7);
    assert_eq!(l.locate(6), Some(0));
    let none = Layout::new(&Mode::Multi { dir_name: "d".to_string(), files: vec![], md5sum: None })
        .unwrap();
    assert_eq!(none.length(), 0);
    assert_eq!(none.locate(0), None);
}

#[test]
fn lengths_beyond_64_bits_have_no_layout() {
    let m = Mode::Multi {
        dir_name: "d".to_string(),
        files: vec![
            File { length: u64::MAX, md5sum: None, path: vec!["a".to_string()] },
            File { length: 1, md5sum: None, path: vec!["b".to_string()] },
        ],
        md5sum: None,
    };
    assert!(Layout::new(&m).is_none());
    assert_eq!(m.total_length(), None);
    assert_eq!(files().total_length(), Some(15));
    assert_eq!(Mode::default().name(), "");
}

#[test]
fn buffer_takes_blocks_that_fit() {
    let mut b = Buffer::new(4, 2);
    assert_eq!(b.inner, vec![vec![0; 4], vec![0; 4]]);
    assert_eq!(b.write(1, 1, &[7, 8]), Ok(()));
    assert_eq!(b.inner, vec![vec![0; 4], vec![0, 7, 8, 0]]);
    assert_eq!(b.write(2, 0, &[1]), Err(GeneralError::InvalidPieceIdx));
    assert_eq!(b.write(0, 3, &[1, 2]), Err(GeneralError::InvalidPieceIdx));
    assert_eq!(b.write(0, 5, &[]), Err(GeneralError::InvalidPieceIdx));
    assert_eq!(b.write(0, 4, &[]), Ok(()));
    let mut w = Writer::new(b);
    assert_eq!(w.download(&Message::Piece { index: 0, begin: 0, block: vec![9; 4] }), Ok(()));
    assert_eq!(w.buffer.inner[0], vec![9; 4]);
    assert_eq!(w.download(&Message::Cancel { index: 0, begin: 0, length: 4 }), Ok(()));
    assert_eq!(
        w.download(&Message::Piece { index: 0, begin: 1, block: vec![9; 4] }),
        Err(GeneralError::InvalidPieceIdx)
    );
    assert_eq!(
        w.download(&Message::Choke),
        Err(GeneralError::UnexpectedResponse(String::new()))
    );
}

#[test]
fn paths_stay_below_the_download_directory() {
    for good in ["a", "a.txt", "...", ".hidden", "x..y", "ünï", " "] {
        assert!(is_plain(good), "{good:?}");
    }
    for bad in ["", ".", "..", "a/b", "/", "a\\b", "a\0", "/etc", "../x"] {
        assert!(!is_plain(bad), "{bad:?}");
    }
    let entry = |path: &[&str]| Entry {
        path: path.iter().map(|s| s.to_string()).collect(),
        length: 1,
        offset: 0,
    };
    assert!(Layout { entries: vec![] }.is_confined());
    assert!(Layout { entries: vec![entry(&["d", "a"]), entry(&["d", "s", "b"])] }.is_confined());
    assert!(!Layout { entries: vec![entry(&["d", "a"]), entry(&["d", "..", "b"])] }.is_confined());
    assert!(!Layout { entries: vec![entry(&["", "a"])] }.is_confined());
}
