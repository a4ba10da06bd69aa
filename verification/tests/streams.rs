use elastic_streams::field::{fr_add, fr_from_u64, fr_is_zero, fr_mul, Scalar};
use elastic_streams::hash::{AlgHashIterator, LookupSortedStreamer};
use elastic_streams::sorted::{check_addresses, sorted_merge, SortedIterator};
use elastic_streams::stream::{Enumerator, StreamError, VecStream};
use ark_std::rand::Rng;

fn drain_sorted<T: Copy>(it: &mut SortedIterator<T>) -> Vec<T> {
    let mut out = Vec::new();
    loop {
        match it.next() {
            Ok(Some(x)) => out.push(x),
            Ok(None) => return out,
            Err(e) => panic!("unexpected stream error: {:?}", e),
        }
    }
}

fn drain<T, I: Enumerator<T>>(it: &mut I) -> Vec<T> {
    let mut out = Vec::new();
    while let Some(x) = it.next_item() {
        out.push(x);
    }
    out
}

fn rand_scalar<R: Rng>(rng: &mut R) -> Scalar {
    fr_from_u64(rng.gen::<u64>())
}

#[test]
fn test_sorted_iterator() {
    // base enumerated from the high position down
    let base = vec!["4", "3", "2", "1"];
    let addresses: Vec<usize> = vec![2, 2, 2, 1, 0, 0, 0];
    let expected = vec!["4", "3", "3", "3", "3", "2", "2", "1", "1", "1", "1"];
    let mut it = SortedIterator::new(&base, &addresses, base.len());
    assert_eq!(drain_sorted(&mut it), expected);

    let base = vec!["6", "5", "4", "3", "2", "1"];
    let addresses: Vec<usize> = vec![4, 3, 3, 2, 1, 1, 1, 1, 0, 0];
    let expected = vec![
        "6", "5", "5", "4", "4", "4", "3", "3", "2", "2", "2", "2", "2", "1", "1", "1",
    ];
    let mut it = SortedIterator::new(&base, &addresses, base.len());
    assert_eq!(drain_sorted(&mut it), expected);
}

#[test]
fn test_sorted_stream() {
    let rng = &mut ark_std::test_rng();
    let set_size = 5;
    let subset_size = 10;
    let test_vector: Vec<Scalar> = (0..set_size).map(|_| rand_scalar(rng)).collect();

    // assume the subset indices are sorted.
    let mut subset_indices: Vec<usize> = (0..subset_size)
        .map(|_| rng.gen_range(0..set_size))
        .collect();
    subset_indices.sort();
    // create the array of merged indices and the sorted vector `w`
    let mut merged_indices = subset_indices.clone();
    merged_indices.extend(0..set_size);
    merged_indices.sort();
    merged_indices.reverse();
    let w: Vec<Scalar> = merged_indices.iter().map(|&i| test_vector[i]).collect();

    let y = rand_scalar(rng);
    let z = rand_scalar(rng);
    let one = fr_from_u64(1);
    let len = set_size + subset_size;
    let ans: Vec<Scalar> = (0..len)
        .map(|i| fr_add(fr_add(fr_mul(y, fr_add(one, z)), w[i]), fr_mul(z, w[(i + 1) % len])))
        .collect();

    let subset_indices_stream: Vec<usize> = subset_indices.iter().rev().cloned().collect();
    let test_vector_stream: Vec<Scalar> = test_vector.iter().rev().cloned().collect();
    let streamer = LookupSortedStreamer::new(&test_vector_stream, &subset_indices_stream, y, z);
    let mut pass = streamer.stream();
    let sorted_stream = drain(&mut pass);
    assert_eq!(sorted_stream, ans);
}

#[test]
fn test_sorted_stream_length() {
    let rng = &mut ark_std::test_rng();
    let base: Vec<Scalar> = (0..7).map(|_| rand_scalar(rng)).collect();
    let addresses: Vec<usize> = vec![6, 4, 4, 2, 0];
    let y = rand_scalar(rng);
    let z = rand_scalar(rng);
    let streamer = LookupSortedStreamer::new(&base, &addresses, y, z);
    assert_eq!(streamer.len(), base.len() + addresses.len());
    let mut pass = streamer.stream();
    assert_eq!(drain(&mut pass).len(), streamer.len());
}

#[test]
fn test_sorted_merge_collect() {
    let base: Vec<u64> = vec![40, 30, 20, 10];
    let addresses: Vec<usize> = vec![2, 2, 1, 0];
    let out = sorted_merge(&base, &addresses).unwrap();
    assert_eq!(out, vec![40, 30, 30, 30, 20, 20, 10, 10]);
}

#[test]
fn test_sorted_merge_rejects_ascent() {
    // an in-range address sequence that increases at some step must hit the
    // malformed-ordering fatal path
    let base: Vec<u64> = vec![40, 30, 20, 10];
    let addresses: Vec<usize> = vec![1, 3];
    assert_eq!(
        sorted_merge(&base, &addresses),
        Err(StreamError::MalformedOrdering)
    );
}

#[test]
fn test_sorted_iterator_overtake_is_fatal() {
    let base: Vec<u64> = vec![40, 30, 20, 10];
    let addresses: Vec<usize> = vec![0, 2];
    let mut it = SortedIterator::new(&base, &addresses, base.len());
    let mut saw_error = false;
    for _ in 0..(base.len() + addresses.len() + 1) {
        match it.next() {
            Ok(_) => {}
            Err(e) => {
                assert_eq!(e, StreamError::MalformedOrdering);
                saw_error = true;
                break;
            }
        }
    }
    assert!(saw_error);
}

#[test]
fn test_alg_hash_cyclic_fold() {
    // output i must equal y(1+z) + w[i] + z*w[(i+1) mod len] for every i
    let rng = &mut ark_std::test_rng();
    let w: Vec<Scalar> = (0..6).map(|_| rand_scalar(rng)).collect();
    let y = rand_scalar(rng);
    let z = rand_scalar(rng);
    let one = fr_from_u64(1);
    let k = fr_mul(y, fr_add(one, z));
    let expected: Vec<Scalar> = (0..w.len())
        .map(|i| fr_add(fr_add(k, w[i]), fr_mul(z, w[(i + 1) % w.len()])))
        .collect();
    let mut fold = AlgHashIterator::new(VecStream::new(&w), y, z);
    assert_eq!(drain(&mut fold), expected);
}

#[test]
fn test_alg_hash_singleton() {
    // a single element wraps around to itself: the one output is k + w0 + z*w0
    let w: Vec<Scalar> = vec![fr_from_u64(9)];
    let y = fr_from_u64(4);
    let z = fr_from_u64(5);
    // k = 4*(1+5) = 24 and the one output is 24 + 9 + 5*9 = 78
    let expected = vec![fr_from_u64(78)];
    let mut fold = AlgHashIterator::new(VecStream::new(&w), y, z);
    assert_eq!(drain(&mut fold), expected);
}

#[test]
fn test_alg_hash_empty_is_fatal() {
    let w: Vec<Scalar> = Vec::new();
    let y = fr_from_u64(4);
    let z = fr_from_u64(5);
    match AlgHashIterator::try_new(VecStream::new(&w), y, z) {
        Ok(_) => panic!("an empty sequence must be rejected"),
        Err(e) => assert_eq!(e, StreamError::EmptySequence),
    }
}

#[test]
fn test_field_wrappers() {
    // the trusted arithmetic must act on its arguments, not hand them back
    assert_eq!(fr_add(fr_from_u64(2), fr_from_u64(3)), fr_from_u64(5));
    assert_eq!(fr_mul(fr_from_u64(6), fr_from_u64(7)), fr_from_u64(42));
    assert!(fr_is_zero(&fr_from_u64(0)));
    assert!(!fr_is_zero(&fr_from_u64(11)));
    assert_ne!(fr_from_u64(1), fr_from_u64(2));
}

#[test]
fn test_check_addresses() {
    let good: Vec<usize> = vec![3, 3, 2, 0, 0];
    let ascent: Vec<usize> = vec![3, 1, 2];
    let out_of_range: Vec<usize> = vec![4, 2];
    assert!(check_addresses(&good, 4));
    assert!(!check_addresses(&ascent, 4));
    assert!(!check_addresses(&out_of_range, 4));
    assert!(check_addresses(&Vec::new(), 0));
}

#[test]
fn test_try_stream_error_paths() {
    let rng = &mut ark_std::test_rng();
    let base: Vec<Scalar> = (0..4).map(|_| rand_scalar(rng)).collect();
    let y = rand_scalar(rng);
    let z = rand_scalar(rng);

    let ascent: Vec<usize> = vec![1, 3];
    let streamer = LookupSortedStreamer::new(&base, &ascent, y, z);
    match streamer.try_stream() {
        Err(e) => assert_eq!(e, StreamError::MalformedOrdering),
        Ok(_) => panic!("an ascending address pattern must be rejected"),
    }

    let empty_base: Vec<Scalar> = Vec::new();
    let no_addresses: Vec<usize> = Vec::new();
    let streamer = LookupSortedStreamer::new(&empty_base, &no_addresses, y, z);
    match streamer.try_stream() {
        Err(e) => assert_eq!(e, StreamError::EmptySequence),
        Ok(_) => panic!("an empty base must be rejected"),
    }

    let addresses: Vec<usize> = vec![2, 0];
    let streamer = LookupSortedStreamer::new(&base, &addresses, y, z);
    let mut pass = streamer.try_stream().unwrap();
    assert_eq!(drain(&mut pass).len(), base.len() + addresses.len());
}

#[test]
fn test_sorted_merge_rejects_out_of_range() {
    // an address equal to the base length lies outside the valid positions:
    // the merge must abort, never end silently with a truncated column
    let base: Vec<u64> = vec![40, 30, 20, 10];
    let at_length: Vec<usize> = vec![4];
    assert_eq!(
        sorted_merge(&base, &at_length),
        Err(StreamError::MalformedOrdering)
    );
    let above_length: Vec<usize> = vec![9, 1];
    assert_eq!(
        sorted_merge(&base, &above_length),
        Err(StreamError::MalformedOrdering)
    );
}

#[test]
fn test_sorted_iterator_unmatched_address_is_fatal() {
    // the first pending address equals the initial cursor, so nothing was
    // cached for it: the very first step must hit the fatal path
    let base: Vec<u64> = vec![40, 30, 20, 10];
    let addresses: Vec<usize> = vec![4, 2];
    let mut it = SortedIterator::new(&base, &addresses, base.len());
    assert_eq!(it.next(), Err(StreamError::MalformedOrdering));
}
