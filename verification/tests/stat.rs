use std::io::{self, BufWriter, Read, Write};

use compressing::stat::Stat;

/// Wires the verified counters of [`Stat`] to the standard I/O traits: every
/// successful read or write on the wrapped stream is recorded.
#[derive(Debug)]
struct IoStat<I> {
    stat: Stat<I>,
}

impl<I> IoStat<I> {
    fn new(inner: I) -> Self {
        IoStat { stat: Stat::new(inner) }
    }

    fn read_count(&self) -> u64 {
        self.stat.read_count()
    }

    fn write_count(&self) -> u64 {
        self.stat.write_count()
    }

    fn into_inner(self) -> I {
        self.stat.into_inner()
    }
}

impl<I: Read> Read for IoStat<I> {
    fn read(&mut self, buf: &mut [u8]) -> io::Result<usize> {
        let n = self.stat.inner.read(buf)?;
        let n64 = u64::try_from(n).unwrap();
        if self.stat.read_count().checked_add(n64).is_none() {
            panic!("byte counter overflow");
        }
        self.stat.record_read(n64);
        Ok(n)
    }
}

impl<I: Write> Write for IoStat<I> {
    fn write(&mut self, buf: &[u8]) -> io::Result<usize> {
        let n = self.stat.inner.write(buf)?;
        let n64 = u64::try_from(n).unwrap();
        if self.stat.write_count().checked_add(n64).is_none() {
            panic!("byte counter overflow");
        }
        self.stat.record_write(n64);
        Ok(n)
    }

    fn flush(&mut self) -> io::Result<()> {
        self.stat.inner.flush()
    }
}

#[test]
fn test_read() {
    let mut src = "ol\u{e1}, mundo!".as_bytes();
    let mut stat_r = IoStat::new(&mut src);

    io::read_to_string(&mut stat_r).unwrap();

    assert_eq!(stat_r.read_count(), 12);
    assert_eq!(stat_r.write_count(), 0);
}

#[test]
fn test_write() {
    let out = Vec::<u8>::new();
    let mut stat_w = IoStat::new(out);

    stat_w.write_all("ol\u{e1}, mundo!".as_bytes()).unwrap();

    assert_eq!(stat_w.read_count(), 0);
    assert_eq!(stat_w.write_count(), 12);
    assert_eq!(stat_w.into_inner(), "ol\u{e1}, mundo!".as_bytes());
}

#[test]
fn test_three_level_composition_with_buffering() {
    let out = Vec::<u8>::new();
    let stat = IoStat::new(out);
    let mut buf_w = BufWriter::with_capacity(5, stat);

    buf_w.write_all("ol\u{e1}, mundo!".as_bytes()).unwrap();

    let stat_w = buf_w.into_inner().unwrap();

    assert_eq!(stat_w.read_count(), 0);
    assert_eq!(stat_w.write_count(), 12);
    assert_eq!(stat_w.into_inner(), "ol\u{e1}, mundo!".as_bytes());
}

#[test]
fn test_counters_accumulate() {
    let mut stat = Stat::new(());
    assert_eq!(stat.read_count(), 0);
    assert_eq!(stat.write_count(), 0);
    stat.record_read(5);
    stat.record_read(7);
    stat.record_write(3);
    assert_eq!(stat.read_count(), 12);
    assert_eq!(stat.write_count(), 3);
    assert_eq!(stat.into_inner(), ());
}
