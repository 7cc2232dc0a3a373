use xquo::bulk::BulkReader;

fn lines_to_bulk(src: &[&str], trim: bool) -> Vec<Vec<u8>> {
    let mut ret = Vec::<Vec<u8>>::new();
    let len = src.len();
    if len == 0 {
        return ret;
    } else if len == 1 {
        ret.push(src[0].as_bytes().to_vec());
        return ret;
    } else if trim {
        src[0..len - 1].iter().for_each(|v| {
            ret.push(format!("{}\0", v).as_bytes().to_vec());
        });
        ret.push(src[len - 1].as_bytes().to_vec());
        return ret;
    }
    for v in src {
        ret.push(format!("{}\0", v).as_bytes().to_vec());
    }
    ret
}

#[test]
fn single_line() {
    let bulk_size: usize = 10;
    let s = ["aa"];
    let lines = s.join("\0");

    let file = lines.as_bytes();
    let mut r = BulkReader::new(file.to_vec(), bulk_size);

    let (b, s) = r.read(0);
    assert_eq!(b, vec!["aa".as_bytes()]);
    assert_eq!(s, 1);
    let (b, s) = r.read(0);
    assert_eq!(b, Vec::<Vec<u8>>::new());
    assert_eq!(s, 0);
}

#[test]
fn empty_line() {
    let bulk_size: usize = 10;
    let s: [&str; 0] = [];
    let lines = s.join("\0");

    let file = lines.as_bytes();
    let mut r = BulkReader::new(file.to_vec(), bulk_size);

    let (b, s) = r.read(0);
    assert_eq!(b, Vec::<Vec<u8>>::new());
    assert_eq!(s, 0);
}

#[test]
fn multiple_lines_into_one_bulk() {
    let bulk_size: usize = 10;
    let s = ["aa", "bb", "cc"];
    let lines = s.join("\0");
    let ex_lines = s.as_slice();

    let file = lines.as_bytes();
    let mut r = BulkReader::new(file.to_vec(), bulk_size);

    let (b, s) = r.read(0);
    assert_eq!(b, lines_to_bulk(ex_lines, true));
    assert_eq!(s, 3);
    let (b, s) = r.read(0);
    assert_eq!(b, Vec::<Vec<u8>>::new());
    assert_eq!(s, 0);
}

#[test]
fn multiple_lines_spread_some_bulks() {
    let bulk_size: usize = 10;
    let s = [
        "1", "2", "3", "4", "5", "6", "7", "8", "9", "10", "11", "12",
    ];
    let lines = s.join("\0");
    let ex_lines = s.as_slice();

    let file = lines.as_bytes();
    let mut r = BulkReader::new(file.to_vec(), bulk_size);

    let (b, s) = r.read(0);
    assert_eq!(b, lines_to_bulk(&ex_lines[0..10], false));
    assert_eq!(s, 10);
    let (b, s) = r.read(0);
    assert_eq!(b, lines_to_bulk(&ex_lines[10..12], true));
    assert_eq!(s, 2);
    let (b, s) = r.read(0);
    assert_eq!(b, Vec::<Vec<u8>>::new());
    assert_eq!(s, 0);
}

#[test]
fn read_all_batch_counts() {
    // twelve records in batches of ten: ceil(12 / 10) batches of 10 and 2 records
    let s = [
        "1", "2", "3", "4", "5", "6", "7", "8", "9", "10", "11", "12",
    ];
    let lines = s.join("\0");
    let mut r = BulkReader::new(lines.as_bytes().to_vec(), 10);
    let batches = r.read_all(0);
    assert_eq!(batches.len(), 2);
    assert_eq!(batches[0].len(), 10);
    assert_eq!(batches[1].len(), 2);
    let total: usize = batches.iter().map(|b| b.len()).sum();
    assert_eq!(total, 12);

    // an empty stream yields no batches
    let mut r = BulkReader::new(Vec::new(), 10);
    let batches = r.read_all(0);
    assert_eq!(batches.len(), 0);

    // exactly one full batch at end of stream, then an empty read
    let lines = ["a", "b", "c"].join("\0");
    let mut r = BulkReader::new(lines.as_bytes().to_vec(), 3);
    let batches = r.read_all(0);
    assert_eq!(batches.len(), 1);
    assert_eq!(batches[0].len(), 3);
    let (b, s) = r.read(0);
    assert_eq!(b, Vec::<Vec<u8>>::new());
    assert_eq!(s, 0);
}

#[test]
fn stream_without_delimiter_is_one_record() {
    let mut r = BulkReader::new("abc".as_bytes().to_vec(), 10);
    let (b, s) = r.read(0);
    assert_eq!(b, vec!["abc".as_bytes()]);
    assert_eq!(s, 1);
}

#[test]
fn zero_batch_size_acts_as_one() {
    let lines = ["x", "y"].join("\0");
    let mut r = BulkReader::new(lines.as_bytes().to_vec(), 0);
    let (b, s) = r.read(0);
    assert_eq!(s, 1);
    assert_eq!(b, vec!["x\0".as_bytes()]);
    let (_, s) = r.read(0);
    assert_eq!(s, 1);
    let (_, s) = r.read(0);
    assert_eq!(s, 0);
}
