use elastic_streams::field::{fr_add, fr_from_u64, fr_mul, Scalar};
use elastic_streams::stream::{Enumerator, StreamError};
use elastic_streams::tensor::{
    diagonal_matrix, expand_tensor, tensor, MatrixElement, MatrixTensor,
};
use ark_std::rand::Rng;

fn drain<T, I: Enumerator<T>>(it: &mut I) -> Vec<T> {
    let mut out = Vec::new();
    while let Some(x) = it.next_item() {
        out.push(x);
    }
    out
}

fn rand_scalar<R: Rng>(rng: &mut R) -> Scalar {
    fr_from_u64(rng.gen::<u64>())
}

#[test]
fn test_matrix_tensor_stream() {
    let rng = &mut ark_std::test_rng();
    let r = rand_scalar(rng);
    let n = 4;
    let one = fr_from_u64(1);
    let one_tensor = vec![one, one];
    let expanded_one_tensor = expand_tensor(&one_tensor);

    let matrix = diagonal_matrix(r, n);
    let matrix_tensor = MatrixTensor::new(&matrix, &expanded_one_tensor, n);
    let mut stream = matrix_tensor.stream();
    assert_eq!(stream.next_item(), Some(r));
    assert_eq!(stream.next_item(), Some(r));
    assert_eq!(stream.next_item(), Some(r));
    assert_eq!(stream.next_item(), Some(r));
    assert!(stream.next_item().is_none());

    let random_tensor = vec![rand_scalar(rng), rand_scalar(rng)];
    let expanded_random_tensor = expand_tensor(&random_tensor);
    let matrix_tensor = MatrixTensor::new(&matrix, &expanded_random_tensor, n);
    let mut stream = matrix_tensor.stream();
    assert_eq!(
        stream.next_item(),
        Some(fr_mul(fr_mul(r, random_tensor[0]), random_tensor[1]))
    );
    assert_eq!(stream.next_item(), Some(fr_mul(r, random_tensor[1])));
    assert_eq!(stream.next_item(), Some(fr_mul(r, random_tensor[0])));
    assert_eq!(stream.next_item(), Some(r));
}

#[test]
fn test_matrix_tensor_len() {
    let rng = &mut ark_std::test_rng();
    let r = rand_scalar(rng);
    let n = 4;
    let one = fr_from_u64(1);
    let one_tensor = vec![one, one];

    let matrix = diagonal_matrix(r, n);
    let expanded_one_tensor = expand_tensor(&one_tensor);
    let matrix_tensor = MatrixTensor::new(&matrix, &expanded_one_tensor, n);

    let mut stream = matrix_tensor.stream();
    assert_eq!(matrix_tensor.len(), drain(&mut stream).len());
}

#[test]
fn test_matrix_tensor() {
    let rng = &mut ark_std::test_rng();
    let one = fr_from_u64(1);

    let matrix = vec![
        MatrixElement::Element((one, 0)),
        MatrixElement::Element((one, 1)),
        MatrixElement::Element((one, 2)),
        MatrixElement::Element((one, 3)),
        MatrixElement::EOL,
        MatrixElement::Element((one, 1)),
        MatrixElement::EOL,
        MatrixElement::Element((one, 2)),
        MatrixElement::EOL,
        MatrixElement::EOL,
    ];
    let r = rand_scalar(rng);
    let rr = fr_mul(r, r);
    let challenges = vec![r, rr];
    let expanded_tensor = expand_tensor(&challenges);
    let mt = MatrixTensor::new(&matrix, &expanded_tensor, 4);
    let mut product = mt.stream();
    let expected = fr_add(fr_add(fr_add(fr_mul(rr, r), rr), r), one);
    assert_eq!(product.next_item(), Some(expected));
    assert_eq!(product.next_item(), Some(r));
    assert_eq!(product.next_item(), Some(rr));
    assert_eq!(product.next_item(), Some(fr_from_u64(0)));
    assert_eq!(product.next_item(), None);

    let challenges = vec![
        rand_scalar(rng),
        rand_scalar(rng),
        rand_scalar(rng),
        rand_scalar(rng),
    ];
    let identity = diagonal_matrix(one, 1 << 4);

    let expanded_challenges = expand_tensor(&challenges);
    let mt = MatrixTensor::new(&identity, &expanded_challenges, 1 << 4);
    let mut pass = mt.stream();
    let mut got = drain(&mut pass);
    got.reverse();
    let expected = tensor(&challenges);
    assert_eq!(got, expected);
}

#[test]
fn test_dense_tensor_small() {
    let a = fr_from_u64(3);
    let b = fr_from_u64(5);
    let one = fr_from_u64(1);
    let t = tensor(&vec![a]);
    assert_eq!(t.len(), 2);
    assert_eq!(t[0], one);
    assert_eq!(t[1], fr_mul(one, a));
    let t = tensor(&vec![a, b]);
    assert_eq!(t.len(), 4);
    assert_eq!(t[0], one);
    assert_eq!(t[1], a);
    assert_eq!(t[2], b);
    assert_eq!(t[3], fr_from_u64(15));
}

#[test]
fn test_expand_tensor_windows() {
    let a = fr_from_u64(3);
    let b = fr_from_u64(5);
    let c = fr_from_u64(7);
    let windows = expand_tensor(&vec![a, b, c]);
    assert_eq!(windows.len(), 2);
    assert_eq!(windows[0], vec![a, b, fr_mul(a, b)]);
    assert_eq!(windows[1], vec![c]);
}

#[test]
fn test_validate_row_count() {
    let one = fr_from_u64(1);
    let matrix = vec![
        MatrixElement::Element((one, 0)),
        MatrixElement::EOL,
        MatrixElement::EOL,
    ];
    let windows = expand_tensor(&vec![one, one]);
    let mt = MatrixTensor::new(&matrix, &windows, 2);
    assert!(mt.validate().is_ok());
    let mt = MatrixTensor::new(&matrix, &windows, 3);
    assert_eq!(mt.validate(), Err(StreamError::RowCountMismatch));
}

#[test]
fn test_zero_entries_are_skipped() {
    // a row of explicit zeros folds to the additive identity, like an empty row
    let zero = fr_from_u64(0);
    let seven = fr_from_u64(7);
    let matrix = vec![
        MatrixElement::Element((zero, 0)),
        MatrixElement::Element((zero, 3)),
        MatrixElement::EOL,
        MatrixElement::Element((seven, 0)),
        MatrixElement::EOL,
    ];
    let windows = expand_tensor(&vec![fr_from_u64(2), fr_from_u64(3)]);
    let mt = MatrixTensor::new(&matrix, &windows, 2);
    let mut pass = mt.stream();
    assert_eq!(drain(&mut pass), vec![zero, seven]);
}
