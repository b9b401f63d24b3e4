use analyses::field::Fe;
use analyses::ideal::Ideal;
use analyses::poly::Polynomial;
use analyses::typ::ATyp;
use analyses::var::{Qualifier, Var};

fn scalar(node: usize) -> Var {
    Var::from_node(node, ATyp::scalar(), Qualifier::Witness)
}

fn pv(v: &Var) -> Polynomial {
    Polynomial::var(v)
}

/// Generators that mention a selected variable go, with the selected
/// definitions; the rest stay in order.
#[test]
fn eliminate_var_drops_generators_and_definitions() {
    let (x, y, z) = (scalar(0), scalar(1), scalar(2));
    let mut ideal = Ideal::new();
    ideal.generating_set.push(pv(&x).add(&pv(&y)));
    ideal.generating_set.push(pv(&z).mul(&pv(&z)));
    ideal.generating_set.push(pv(&y).sub(&Polynomial::lit(&Fe::from_u64(3))));
    ideal.generating_set.push(pv(&z).add(&pv(&x)));
    ideal.pl_insert(&y, &pv(&z));
    ideal.pl_insert(&z, &pv(&x));
    let target = y.clone();
    ideal.eliminate_var(&|v: &Var| v.same(&target));
    assert_eq!(ideal.generating_set.len(), 2);
    assert!(ideal.generating_set[0].contains(&z) && !ideal.generating_set[0].contains(&x));
    assert!(ideal.generating_set[1].contains(&z) && ideal.generating_set[1].contains(&x));
    assert_eq!(ideal.pl.len(), 1);
    assert!(ideal.pl[0].0.same(&z));
}

/// A predicate that selects nothing leaves the ideal as it was.
#[test]
fn eliminate_var_with_nothing_selected_keeps_everything() {
    let (x, y) = (scalar(0), scalar(1));
    let mut ideal = Ideal::new();
    ideal.generating_set.push(pv(&x).add(&pv(&y)));
    ideal.pl_insert(&y, &pv(&x));
    ideal.eliminate_var(&|_v: &Var| false);
    assert_eq!(ideal.generating_set.len(), 1);
    assert_eq!(ideal.pl.len(), 1);
}

/// Generators whose every surviving monomial is selected go, a generator
/// that cancels to zero among them; definitions of variables no longer in
/// any generator go too.
#[test]
fn eliminate_monomial_reads_the_canonical_form() {
    let (x, y, z, w) = (scalar(0), scalar(1), scalar(2), scalar(3));
    let xy = pv(&x).mul(&pv(&y));
    let mut ideal = Ideal::new();
    // x*y - x*y + z is z once like terms are collected.
    ideal.generating_set.push(xy.sub(&xy).add(&pv(&z)));
    ideal.generating_set.push(xy.add(&pv(&z)));
    // x - x has no monomial left at all.
    ideal.generating_set.push(pv(&x).sub(&pv(&x)));
    ideal.generating_set.push(pv(&z).mul(&pv(&z)));
    ideal.pl_insert(&y, &pv(&z));
    ideal.pl_insert(&w, &pv(&x));
    let target = z.clone();
    ideal.eliminate_monomial(&|m: &Vec<(Var, usize)>| m.iter().any(|e| e.0.same(&target)));
    assert_eq!(ideal.generating_set.len(), 1);
    assert!(ideal.generating_set[0].contains(&x) && ideal.generating_set[0].contains(&y));
    assert_eq!(ideal.pl.len(), 1, "the definition of w is no longer reachable");
    assert!(ideal.pl[0].0.same(&y));
}
