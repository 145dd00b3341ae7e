use stark_algebra::FieldElement;
use stark_algebra::MODULUS;

#[test]
#[allow(non_snake_case)]
fn part1() {
    // 1. wrap-around across the modulus
    println!(
        "{}",
        FieldElement::new(3221225472).add(&FieldElement::new(10)).value()
    );

    // 2. construct a list of length 1023 whose first two elements are 1 and 3141592
    let mut elements = vec![FieldElement::one(), FieldElement::new(3141592)];
    while elements.len() < 1023 {
        elements.push(
            elements[elements.len() - 1]
                .pow(2)
                .add(&elements[elements.len() - 2].pow(2)),
        );
    }
    assert!(elements.len() == 1023);
    assert!(elements[0] == FieldElement::one());
    println!("{}", elements[0].pow(2).add(&elements[1].pow(2)).value());
    for i in 2..elements.len() {
        assert!(elements[i] == elements[i - 1].pow(2).add(&elements[i - 2].pow(2)));
    }
    println!("{}", elements[1022].value());
    assert!(elements[1022] == FieldElement::new(2338775057));
    println!("Part 1 passed");

    // 3. find a subgroup of size 1024: the multiplicative group is cyclic of
    // order 3 * 2^30, so a subgroup of size 2^i exists for every i up to 30
    let g = FieldElement::generator().pow(3 * (1 << 20));
    let mut G = vec![];
    for i in 0..1024 {
        G.push(g.pow(i));
    }
    assert!(g.is_order(1024));
    let mut b = FieldElement::one();
    for &item in G.iter().take(1023) {
        assert!(item == b);
        b = b.mul(&g);
        assert!(b != FieldElement::one());
    }
    if b.mul(&g) == FieldElement::one() {
        println!("g is a generator of the subgroup of size 1024");
    } else {
        println!("g is not a generator of the subgroup of size 1024");
    }

    // 4. evaluating on a larger domain
    let h = FieldElement::generator().pow(3 * (1 << 30) / 8192);
    let mut H = vec![];
    for i in 0..8192 {
        H.push(h.pow(i));
    }
    let mut eval_domain = vec![];
    let w = FieldElement::generator();
    for &item in H.iter().take(8192) {
        eval_domain.push(w.mul(&item));
    }
    println!("{}", H[1].value()); // 1734477367
    assert!(eval_domain.len() == 8192);
}

#[test]
fn wraparound_addition() {
    let r = FieldElement::new(3221225472).add(&FieldElement::new(10));
    assert_eq!(r, FieldElement::new(9));
}

#[test]
fn additive_identities() {
    let a = FieldElement::new(987654321);
    assert_eq!(a.add(&FieldElement::zero()), a);
    assert_eq!(a.mul(&FieldElement::one()), a);
    assert_eq!(a.mul(&FieldElement::zero()), FieldElement::zero());
}

#[test]
fn commutativity_and_associativity() {
    let a = FieldElement::new(123456789);
    let b = FieldElement::new(3221225470);
    let c = FieldElement::new(31337);
    assert_eq!(a.add(&b), b.add(&a));
    assert_eq!(a.mul(&b), b.mul(&a));
    assert_eq!(a.add(&b).add(&c), a.add(&b.add(&c)));
    assert_eq!(a.mul(&b).mul(&c), a.mul(&b.mul(&c)));
}

#[test]
fn distributivity() {
    let a = FieldElement::new(55550001);
    let b = FieldElement::new(3141592653);
    let c = FieldElement::new(271828182);
    assert_eq!(a.mul(&b.add(&c)), a.mul(&b).add(&a.mul(&c)));
}

#[test]
fn additive_inverse() {
    let a = FieldElement::new(192837465);
    assert_eq!(a.add(&a.negate()), FieldElement::zero());
    assert_eq!(FieldElement::zero().negate(), FieldElement::zero());
}

#[test]
fn multiplicative_inverse() {
    let a = FieldElement::new(192837465);
    assert_eq!(a.mul(&a.inverse()), FieldElement::one());
    assert_eq!(FieldElement::one().inverse(), FieldElement::one());
    let b = FieldElement::new(MODULUS - 1);
    assert_eq!(b.mul(&b.inverse()), FieldElement::one());
}

#[test]
fn division() {
    let a = FieldElement::new(8675309);
    let b = FieldElement::new(423322);
    let q = a.div(&b);
    assert_eq!(q.mul(&b), a);
    assert_eq!(a.div(&a), FieldElement::one());
}

#[test]
fn fermat_little_theorem_samples() {
    // a^(p - 1) = 1 for nonzero a: spot checks, the general law needs the
    // primality of the modulus
    for v in [1u64, 2, 5, 3141592, 3221225472] {
        let a = FieldElement::new(v);
        assert_eq!(a.pow(MODULUS - 1), FieldElement::one());
    }
}

#[test]
fn pow_laws() {
    let a = FieldElement::new(271828);
    assert_eq!(a.pow(0), FieldElement::one());
    assert_eq!(a.pow(1), a);
    assert_eq!(a.pow(13).mul(&a.pow(29)), a.pow(42));
    // zero to the zeroth power is one by convention
    assert_eq!(FieldElement::zero().pow(0), FieldElement::one());
}

#[test]
fn subgroup_orders() {
    // generator()^((p-1)/k) has order k for k a power of two dividing p - 1
    for log2 in [0u64, 1, 2, 10, 16] {
        let k = 1u64 << log2;
        let root = FieldElement::generator().pow((MODULUS - 1) / k);
        assert!(root.is_order(k));
    }
    // the generator itself does not have order 2
    assert!(!FieldElement::generator().is_order(2));
    assert!(FieldElement::one().is_order(1));
}

#[test]
fn random_element_avoids_exclusions() {
    let exclude: Vec<FieldElement> = (0u64..32).map(FieldElement::new).collect();
    for _ in 0..16 {
        let r = FieldElement::random_element(&exclude);
        assert!(r.value() < MODULUS);
        assert!(!exclude.contains(&r));
    }
    let nothing: [FieldElement; 0] = [];
    let r = FieldElement::random_element(&nothing);
    assert!(r.value() < MODULUS);
}

#[test]
fn new_reduces_modulo() {
    assert_eq!(FieldElement::new(MODULUS), FieldElement::zero());
    assert_eq!(FieldElement::new(MODULUS + 7), FieldElement::new(7));
    assert_eq!(FieldElement::new(u64::MAX).value(), u64::MAX % MODULUS);
    assert_eq!(FieldElement::generator().value(), 5);
}
