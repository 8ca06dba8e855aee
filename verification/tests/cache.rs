use vfs::{CachedReadSeek, MemStream, ReadSeek, SeekFrom};

fn pattern(len: usize) -> Vec<u8> {
    (0..len).map(|i| ((i * 7 + 3) % 256) as u8).collect()
}

fn position<R: ReadSeek>(s: &mut R) -> u64 {
    s.seek(SeekFrom::Current(0)).unwrap()
}

#[test]
fn page_cache_transparency() {
    // content length deliberately not aligned to the page size
    let content = pattern(10000);
    let mut cache = CachedReadSeek::new(MemStream::new(content.clone()));
    for &(offset, want) in &[
        (0usize, 1usize),
        (1, 10),
        (4095, 2),
        (4096, 4096),
        (8191, 100),
        (9999, 1),
        (5000, 5000),
        (0, 10000),
        (123, 777),
    ] {
        cache.seek(SeekFrom::Start(offset as u64)).unwrap();
        let mut collected = Vec::new();
        while collected.len() < want {
            let mut buf = vec![0u8; want - collected.len()];
            let n = cache.read(&mut buf);
            if n == 0 {
                break;
            }
            collected.extend_from_slice(&buf[..n]);
        }
        let end = usize::min(offset + want, content.len());
        assert_eq!(collected, content[usize::min(offset, content.len())..end].to_vec());
    }
}

#[test]
fn page_cache_fetch_once() {
    let content = pattern(8192);
    let mut cache = CachedReadSeek::new(MemStream::new(content.clone()));
    assert_eq!(cache.reader().reads_made(), 0);
    // several reads confined to the first page: one underlying fetch
    for offset in [0u64, 100, 4000, 7, 4095] {
        cache.seek(SeekFrom::Start(offset)).unwrap();
        let mut buf = vec![0u8; 1];
        let n = cache.read(&mut buf);
        assert_eq!(n, 1);
        assert_eq!(buf[0], content[offset as usize]);
    }
    assert_eq!(cache.reader().reads_made(), 1);
    // touching the second page costs exactly one more fetch
    cache.seek(SeekFrom::Start(4096)).unwrap();
    let mut buf = vec![0u8; 8];
    assert_eq!(cache.read(&mut buf), 8);
    cache.seek(SeekFrom::Start(5000)).unwrap();
    assert_eq!(cache.read(&mut buf), 8);
    assert_eq!(cache.reader().reads_made(), 2);
}

#[test]
fn position_consistency() {
    let content = pattern(6000);
    let mut cache = CachedReadSeek::new(MemStream::new(content));
    cache.seek(SeekFrom::Start(4090)).unwrap();
    let before = position(&mut cache);
    let mut buf = vec![0u8; 100];
    let n = cache.read(&mut buf);
    // a read is clipped at the page boundary, yet position advances by n
    assert_eq!(n, 6);
    assert_eq!(position(&mut cache), before + n as u64);
    // the backing stream's position agrees
    assert_eq!(cache.reader().reads_made(), 1);
    let n2 = cache.read(&mut buf);
    assert_eq!(position(&mut cache), before + (n + n2) as u64);
}

#[test]
fn eof_reads_nothing_without_error() {
    let content = pattern(5000);
    let mut cache = CachedReadSeek::new(MemStream::new(content));
    // exactly at the end
    cache.seek(SeekFrom::Start(5000)).unwrap();
    let mut buf = vec![0u8; 16];
    assert_eq!(cache.read(&mut buf), 0);
    assert_eq!(position(&mut cache), 5000);
    // far past the end: position stays at the requested offset
    cache.seek(SeekFrom::Start(123456)).unwrap();
    assert_eq!(cache.read(&mut buf), 0);
    assert_eq!(position(&mut cache), 123456);
    assert_eq!(buf, vec![0u8; 16]);
}

#[test]
fn seek_rules() {
    let mut s = MemStream::new(pattern(100));
    assert_eq!(s.seek(SeekFrom::End(0)).unwrap(), 100);
    assert_eq!(s.seek(SeekFrom::End(-40)).unwrap(), 60);
    assert_eq!(s.seek(SeekFrom::Current(15)).unwrap(), 75);
    assert!(s.seek(SeekFrom::Current(-76)).is_err());
    // a refused seek leaves the position alone
    assert_eq!(s.seek(SeekFrom::Current(0)).unwrap(), 75);
    assert!(s.seek(SeekFrom::End(-101)).is_err());
    assert_eq!(s.seek(SeekFrom::Start(400)).unwrap(), 400);
    let mut buf = vec![0u8; 4];
    assert_eq!(s.read(&mut buf), 0);
}
