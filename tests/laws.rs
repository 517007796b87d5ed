use ssd1362::ringbuffer::{Error, Ringbuffer};

fn records_oldest_first<const N: usize>(buffer: &Ringbuffer<N>) -> Vec<Vec<u8>> {
    let mut out = Vec::new();
    let mut it = buffer.iter(0);
    while let Some(r) = it.next() {
        out.push(r.to_vec());
    }
    out
}

fn records_newest_first<const N: usize>(buffer: &Ringbuffer<N>, offset: usize) -> Vec<Vec<u8>> {
    let mut out = Vec::new();
    let mut it = buffer.reverse_iter(offset);
    while let Some(r) = it.next() {
        out.push(r.to_vec());
    }
    out
}

#[test]
fn free_and_live_bytes_stay_below_capacity() {
    let mut buffer: Ringbuffer<16> = Ringbuffer::new();
    for n in 0..40u8 {
        let record: Vec<u8> = (0..(n % 7)).map(|k| n.wrapping_add(k)).collect();
        buffer.add(&record);
        let live: usize = records_oldest_first(&buffer).iter().map(|r| r.len()).sum();
        assert!(buffer.free() + live <= 15);
        assert_eq!(buffer.used(), 16 - buffer.free());
    }
}

#[test]
fn spans_stay_inside_the_arena() {
    let mut buffer: Ringbuffer<8> = Ringbuffer::new();
    buffer.add(&[1, 2]);
    buffer.add(&[3, 4, 3]);
    buffer.add(&[5, 6]);
    buffer.add(&[7, 8]);
    assert_eq!(buffer.element(0), Some(&[5u8, 6][..]));
    assert_eq!(buffer.element(1), Some(&[7u8, 8][..]));
    assert_eq!(buffer.element(2), None);
    assert_eq!(buffer.element(100), None);
}

#[test]
fn reverse_walk_is_repeatable() {
    let mut buffer: Ringbuffer<8> = Ringbuffer::new();
    buffer.add(&[1, 2]);
    buffer.add(&[3, 4, 3]);
    buffer.add(&[5, 6]);
    buffer.add(&[7]);
    let first = records_newest_first(&buffer, 0);
    let second = records_newest_first(&buffer, 0);
    assert_eq!(first, second);
    assert_eq!(first, vec![vec![7], vec![5, 6], vec![3, 4, 3]]);
}

#[test]
fn overflow_keeps_the_newest_records() {
    let mut buffer: Ringbuffer<12> = Ringbuffer::new();
    let mut all: Vec<Vec<u8>> = Vec::new();
    for n in 1..30u8 {
        let record = vec![n; (n % 4 + 1) as usize];
        buffer.add(&record);
        all.push(record);
        let kept = records_oldest_first(&buffer);
        assert!(!kept.is_empty());
        assert_eq!(&all[all.len() - kept.len()..], &kept[..]);
    }
}

#[test]
fn newest_record_comes_first() {
    let mut buffer: Ringbuffer<8> = Ringbuffer::new();
    for n in 1..20u8 {
        let record = vec![n; (n % 5) as usize];
        buffer.add(&record);
        let mut it = buffer.reverse_iter(0);
        assert_eq!(it.next(), Some(&record[..]));
    }
}

#[test]
fn capacity_eight_add_pop_and_evict() {
    let mut buffer: Ringbuffer<8> = Ringbuffer::new();
    buffer.add(&[1, 2, 3, 4]);
    assert_eq!(buffer.free(), 3);
    buffer.add(&[5, 6]);
    assert_eq!(buffer.free(), 1);
    assert!(buffer.pop());
    assert_eq!(buffer.free(), 3);
    buffer.add(&[7, 8, 9]);
    assert_eq!(buffer.free(), 0);
    // The retry loop has to evict before [7, 8] fits.
    buffer.add(&[7, 8]);
    assert_eq!(records_oldest_first(&buffer), vec![vec![7, 8, 9], vec![7, 8]]);
    // Nothing of eight bytes ever fits: everything is evicted.
    buffer.add(&[1, 2, 3, 4, 5, 6, 7, 8]);
    assert_eq!(records_oldest_first(&buffer), Vec::<Vec<u8>>::new());
    assert_eq!(buffer.free(), 7);
}

#[test]
fn try_add_on_a_full_buffer_changes_nothing() {
    let mut buffer: Ringbuffer<8> = Ringbuffer::new();
    buffer.try_add(&[1, 2, 3, 4]).unwrap();
    buffer.try_add(&[5, 6, 7]).unwrap();
    assert_eq!(buffer.free(), 0);
    let before = records_oldest_first(&buffer);
    assert_eq!(buffer.try_add(&[7, 8]), Err(Error::NoSpace));
    assert_eq!(buffer.free(), 0);
    assert_eq!(records_oldest_first(&buffer), before);
}

#[test]
fn try_add_of_exactly_free_bytes_succeeds() {
    let mut buffer: Ringbuffer<8> = Ringbuffer::new();
    assert_eq!(buffer.try_add(&[1, 2, 3, 4, 5, 6, 7]), Ok(()));
    assert_eq!(buffer.free(), 0);
    assert_eq!(buffer.try_add(&[]), Ok(()));
    assert_eq!(buffer.try_add(&[1]), Err(Error::NoSpace));
}

#[test]
fn index_bound_rejects_with_bytes_left() {
    let mut buffer: Ringbuffer<64> = Ringbuffer::new();
    for n in 0..16u8 {
        assert_eq!(buffer.try_add(&[n]), Ok(()));
    }
    assert!(buffer.free() > 0);
    assert_eq!(buffer.try_add(&[]), Err(Error::NoSpace));
    // add evicts the oldest instead.
    buffer.add(&[99]);
    let kept = records_oldest_first(&buffer);
    assert_eq!(kept.len(), 16);
    assert_eq!(kept[0], vec![1]);
    assert_eq!(kept[15], vec![99]);
}

#[test]
fn pop_on_empty_reports_nothing() {
    let mut buffer: Ringbuffer<8> = Ringbuffer::new();
    assert!(!buffer.pop());
    buffer.add(&[1]);
    assert!(buffer.pop());
    assert!(!buffer.pop());
    assert_eq!(buffer.free(), 7);
}

#[test]
fn iter_and_reverse_iter_with_offsets() {
    let mut buffer: Ringbuffer<16> = Ringbuffer::new();
    buffer.add(&[1]);
    buffer.add(&[2, 2]);
    buffer.add(&[3, 3, 3]);
    let mut it = buffer.iter(1);
    assert_eq!(it.next(), Some(&[2u8, 2][..]));
    assert_eq!(it.next(), Some(&[3u8, 3, 3][..]));
    assert_eq!(it.next(), None);
    assert_eq!(it.next(), None);
    assert_eq!(records_newest_first(&buffer, 1), vec![vec![2, 2], vec![1]]);
    assert_eq!(records_newest_first(&buffer, 3), Vec::<Vec<u8>>::new());
    assert_eq!(records_newest_first(&buffer, usize::MAX), Vec::<Vec<u8>>::new());
}
