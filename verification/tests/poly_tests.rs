use stark_algebra::remove_trailing_elements;
use stark_algebra::FieldElement;
use stark_algebra::Polynomial;

fn poly(values: &[u64]) -> Polynomial {
    Polynomial::new(values.iter().map(|&v| FieldElement::new(v)).collect())
}

#[test]
fn test_poly() {
    let p1 = Polynomial::new(vec![FieldElement::new(1), FieldElement::new(2)]);
    let p2 = Polynomial::new(vec![FieldElement::new(3), FieldElement::new(4)]);
    let p3 = Polynomial::new(vec![FieldElement::new(4), FieldElement::new(6)]);
    assert_eq!(p1.add(&p2), p3);

    let p1 = Polynomial::new(vec![FieldElement::new(1), FieldElement::new(2)]);
    let p2 = Polynomial::new(vec![FieldElement::new(3), FieldElement::new(4)]);
    let p3 = Polynomial::new(vec![
        FieldElement::new(3),
        FieldElement::new(10),
        FieldElement::new(8),
    ]);
    assert_eq!(p1.mul(&p2), p3);
}

#[test]
fn test_compose() {
    let p1 = Polynomial::new(vec![
        FieldElement::new(0),
        FieldElement::new(1),
        FieldElement::new(1),
    ]);
    let p2 = Polynomial::new(vec![FieldElement::new(1), FieldElement::new(1)]);
    let p3 = Polynomial::new(vec![
        FieldElement::new(2),
        FieldElement::new(3),
        FieldElement::new(1),
    ]);
    println!("{:?}", p1.compose(&p2));
    assert_eq!(p1.compose(&p2), p3);
}

#[test]
fn canonicalization() {
    assert_eq!(poly(&[1, 2, 0, 0]), poly(&[1, 2]));
    assert_eq!(poly(&[0]), Polynomial::zero());
    assert_eq!(poly(&[0]).degree(), None);
    assert_eq!(poly(&[1, 2]).degree(), Some(1));
    assert_eq!(poly(&[7]).degree(), Some(0));
}

#[test]
fn ring_laws() {
    let p = poly(&[1, 2, 3]);
    let q = poly(&[4, 0, 5, 6]);
    let r = poly(&[7, 8]);
    assert_eq!(p.add(&q), q.add(&p));
    assert_eq!(p.mul(&q), q.mul(&p));
    assert_eq!(p.add(&q).add(&r), p.add(&q.add(&r)));
    assert_eq!(p.mul(&q).mul(&r), p.mul(&q.mul(&r)));
    assert_eq!(p.mul(&q.add(&r)), p.mul(&q).add(&p.mul(&r)));
    assert_eq!(p.add(&Polynomial::zero()), p);
    assert_eq!(p.mul(&Polynomial::one()), p);
    assert_eq!(p.mul(&Polynomial::zero()), Polynomial::zero());
}

#[test]
fn subtraction_and_negation() {
    let p = poly(&[5, 0, 11]);
    assert_eq!(p.sub(&p), Polynomial::zero());
    assert_eq!(p.add(&p.neg()), Polynomial::zero());
    let q = poly(&[2, 1]);
    assert_eq!(p.sub(&q).add(&q), p);
}

#[test]
fn degree_law() {
    let p = poly(&[1, 2, 3]);
    let q = poly(&[4, 5]);
    assert_eq!(p.mul(&q).degree(), Some(3));
    assert_eq!(Polynomial::zero().mul(&q), Polynomial::zero());
}

#[test]
fn compose_identities() {
    let p = poly(&[3, 0, 2, 9]);
    let c = FieldElement::new(42);
    assert_eq!(p.compose(&Polynomial::X()), p);
    assert_eq!(Polynomial::X().compose(&p), p);
    assert_eq!(
        Polynomial::from_constant(c).compose(&p),
        Polynomial::from_constant(c)
    );
    assert_eq!(Polynomial::from_constant(FieldElement::zero()), Polynomial::zero());
}

#[test]
fn trim_removes_trailing_sentinels() {
    let mut v = vec![
        FieldElement::new(1),
        FieldElement::new(0),
        FieldElement::new(2),
        FieldElement::new(0),
        FieldElement::new(0),
    ];
    remove_trailing_elements(&mut v, FieldElement::zero());
    assert_eq!(
        v,
        vec![FieldElement::new(1), FieldElement::new(0), FieldElement::new(2)]
    );
    let mut all = vec![FieldElement::zero(); 4];
    remove_trailing_elements(&mut all, FieldElement::zero());
    assert!(all.is_empty());
    let mut none: Vec<FieldElement> = vec![];
    remove_trailing_elements(&mut none, FieldElement::zero());
    assert!(none.is_empty());
}
