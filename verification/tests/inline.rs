use analyses::field::Fe;
use analyses::ideal::Ideal;
use analyses::poly::Polynomial;
use analyses::typ::ATyp;
use analyses::var::{Qualifier, Ref, Var};

fn scalar(node: usize) -> Var {
    Var::from_node(node, ATyp::scalar(), Qualifier::Witness)
}

fn pv(v: &Var) -> Polynomial {
    Polynomial::var(v)
}

fn lit(c: u64) -> Polynomial {
    Polynomial::lit(&Fe::from_u64(c))
}

/// Both polynomials take the same value at several points that give every
/// variable occurring in either of them a pseudo-random value.
fn assert_poly_eq(got: &Polynomial, want: &Polynomial, what: &str) {
    let mut vars = got.vars();
    for v in want.vars() {
        if !vars.iter().any(|w| w.same(&v)) {
            vars.push(v);
        }
    }
    let mut seed: u64 = 0x3c6e_f372_fe94_f82b;
    for _ in 0..4 {
        let point: Vec<(Var, Fe)> = vars
            .iter()
            .map(|v| {
                seed = seed.wrapping_mul(6364136223846793005).wrapping_add(1442695040888963407);
                (v.clone(), Fe::from_u64(seed >> 11))
            })
            .collect();
        assert!(got.evaluate(&point).same(&want.evaluate(&point)), "{what}");
    }
}

/// A chain of definitions is substituted all the way into a generator,
/// and every definition is dropped afterwards.
#[test]
fn inline_resolves_chains() {
    let (x, y, z, w, a, b) = (scalar(0), scalar(1), scalar(2), scalar(3), scalar(4), scalar(5));
    let mut ideal = Ideal::new();
    ideal.pl_insert(&b, &pv(&a).mul(&pv(&z)));
    ideal.pl_insert(&a, &pv(&x).add(&pv(&y)));
    ideal.generating_set.push(pv(&b).sub(&pv(&w)));
    ideal.inline(&Vec::new());
    assert!(ideal.pl.is_empty(), "all definitions substituted away");
    assert_eq!(ideal.generating_set.len(), 1);
    let g = &ideal.generating_set[0];
    assert!(!g.contains(&a) && !g.contains(&b), "no defined variable left");
    assert_poly_eq(g, &pv(&x).add(&pv(&y)).mul(&pv(&z)).sub(&pv(&w)), "(x + y) * z - w");
}

/// Definitions of transcript nodes are resolved after the others and
/// substituted into the generators too; no definition is left.
#[test]
fn inline_substitutes_transcript_definitions_too() {
    let (x, y, t, a) = (scalar(0), scalar(1), scalar(7), scalar(4));
    let mut ideal = Ideal::new();
    ideal.pl_insert(&a, &pv(&x).mul(&pv(&y)));
    ideal.pl_insert(&t, &pv(&a).add(&lit(1)));
    ideal.generating_set.push(pv(&t).sub(&pv(&a)).mul(&pv(&x)));
    ideal.inline(&vec![Ref(7)]);
    assert!(ideal.pl.is_empty(), "all definitions cleared");
    assert_eq!(ideal.generating_set.len(), 1);
    let g = &ideal.generating_set[0];
    assert!(!g.contains(&t) && !g.contains(&a), "no defined variable left");
    assert_poly_eq(g, &pv(&x), "((x*y + 1) - x*y) * x");
}

/// A generator that becomes the literal zero is dropped; the others keep
/// their order.
#[test]
fn inline_drops_zero_generators() {
    let (x, a) = (scalar(0), scalar(4));
    let mut ideal = Ideal::new();
    ideal.pl_insert(&a, &lit(5));
    ideal.generating_set.push(pv(&x).sub(&pv(&a)));
    ideal.generating_set.push(pv(&a).sub(&lit(5)));
    ideal.generating_set.push(pv(&x).mul(&pv(&a)));
    ideal.inline(&Vec::new());
    assert_eq!(ideal.generating_set.len(), 2, "a - 5 vanishes");
    assert_poly_eq(&ideal.generating_set[0], &pv(&x).sub(&lit(5)), "first kept");
    assert_poly_eq(&ideal.generating_set[1], &pv(&x).mul(&lit(5)), "second kept");
}

/// Without definitions nothing changes, not even zero generators.
#[test]
fn inline_without_definitions_is_identity() {
    let x = scalar(0);
    let mut ideal = Ideal::new();
    ideal.generating_set.push(lit(0));
    ideal.generating_set.push(pv(&x));
    ideal.inline(&vec![Ref(0)]);
    assert_eq!(ideal.generating_set.len(), 2);
    assert!(ideal.generating_set[0].is_zero());
}

/// A generator that cancels in canonical form once the definitions are in
/// is dropped too.
#[test]
fn inline_drops_generators_zero_in_canonical_form() {
    let (x, a) = (scalar(0), scalar(4));
    let mut ideal = Ideal::new();
    ideal.pl_insert(&a, &pv(&x).add(&lit(1)));
    // a*a - x*x - 2*x - 1 vanishes once a = x + 1
    ideal.generating_set.push(pv(&a).mul(&pv(&a)).sub(&pv(&x).mul(&pv(&x))).sub(&lit(2).mul(&pv(&x))).sub(&lit(1)));
    ideal.generating_set.push(pv(&a).sub(&pv(&x)));
    ideal.inline(&Vec::new());
    assert_eq!(ideal.generating_set.len(), 1);
    assert_poly_eq(&ideal.generating_set[0], &lit(1), "a - x is one");
    assert!(!ideal.generating_set[0].contains(&a));
}
