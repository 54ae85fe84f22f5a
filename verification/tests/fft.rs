use aoc::y19_fft::{fft_elem, fft_phase, Error, FullFFT, OffsetWndIndexIter, PartialFFT, Pattern, RepeatSignal};

fn digits(s: &str) -> Vec<u32> {
    s.chars().map(|c| c.to_digit(10).unwrap()).collect()
}

#[test]
fn four_phases_of_small_signal() {
    let mut signal = digits("12345678");
    let mut fft = FullFFT::new(8);
    fft.process_n(&mut signal, 1).unwrap();
    assert_eq!(signal, digits("48226158"));
    fft.process_n(&mut signal, 1).unwrap();
    assert_eq!(signal, digits("34040438"));
    fft.process_n(&mut signal, 2).unwrap();
    assert_eq!(signal, digits("01029498"));
}

#[test]
fn hundred_phases() {
    let mut signal = digits("80871224585914546619083218645595");
    let mut fft = FullFFT::new(signal.len());
    fft.process_n(&mut signal, 100).unwrap();
    assert_eq!(signal[..8].to_vec(), digits("24176176"));
}

#[test]
fn wrong_signal_length() {
    let mut signal = digits("1234");
    let mut fft = FullFFT::new(5);
    assert!(matches!(fft.process_n(&mut signal, 1), Err(Error::WrongSignalLen(4, 5))));
}

#[test]
fn repeated_signal_part() {
    let tem = digits("03036732577212944063491565474664");
    let signal = RepeatSignal::new(&tem, 10000);
    assert_eq!(signal.len(), 320000);
    let offset = 303673;
    let mut pfft = PartialFFT::new(offset, &signal, 100);
    let got: Vec<u32> = (offset..offset + 8).map(|i| pfft.nth_ele(i).unwrap()).collect();
    assert_eq!(got, digits("84462026"));
    assert!(matches!(pfft.nth_ele(offset - 1), Err(Error::ParitalNotInclude(_, 303673, 320000))));
}

#[test]
fn elements_and_windows() {
    let s = digits("12345678");
    assert_eq!(fft_elem(0, 0, &s), 4);
    assert_eq!(fft_elem(0, 7, &s), 8);
    let mut out = vec![0; 8];
    fft_phase(0, &s, &mut out);
    assert_eq!(out, digits("48226158"));
    // The latter half of a signal: sums from the end.
    let mut part = vec![0; 4];
    fft_phase(4, &digits("5678"), &mut part);
    assert_eq!(part, digits("6158"));
    let p = Pattern::new(1, 10);
    let mut ones = p.one_ind_iter();
    let got: Vec<usize> = std::iter::from_fn(|| ones.next()).collect();
    assert_eq!(got, vec![1, 2, 9]);
    let mut negs = p.neg_one_ind_iter();
    let got: Vec<usize> = std::iter::from_fn(|| negs.next()).collect();
    assert_eq!(got, vec![5, 6]);
    let mut it = OffsetWndIndexIter::new(0, 1, 3, 7);
    assert_eq!((it.next(), it.next(), it.next(), it.next()), (Some(0), Some(3), Some(6), None));
}

#[test]
fn repeat_signal_indexing() {
    let mut r = RepeatSignal::new(&vec![1, 2, 3], 2);
    assert_eq!((r.get(0), r.get(4), r.len()), (1, 2, 6));
    r.set(4, 9);
    assert_eq!((r.get(1), r.get(4)), (9, 9));
}

#[test]
fn plain_signal_part() {
    let s = digits("12345678");
    let mut pfft = PartialFFT::new(4, &s, 1);
    let got: Vec<u32> = (4..8).map(|i| pfft.nth_ele(i).unwrap()).collect();
    assert_eq!(got, digits("6158"));
    let mut two = PartialFFT::new(5, &s, 2);
    // After two phases the last three digits are 1, 5, 8 summed twice from the end.
    let got: Vec<u32> = (5..8).map(|i| two.nth_ele(i).unwrap()).collect();
    assert_eq!(got, digits("438"));
}

#[test]
fn signals_are_read() {
    assert_eq!(aoc::y19_fft::parse_signal("0123").unwrap(), vec![0, 1, 2, 3]);
    assert!(matches!(aoc::y19_fft::parse_signal("12a4b"), Err(Error::InvalidInputChar('a'))));
    assert_eq!(aoc::y19_fft::parse_signal("").unwrap(), Vec::<u32>::new());
}
