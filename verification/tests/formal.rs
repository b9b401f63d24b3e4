use analyses::field::Fe;
use analyses::formal::{constancy, Constancy};
use analyses::poly::Polynomial;
use analyses::poly_source::PolySource;
use analyses::pow::resolve_const_exp;
use analyses::typ::ATyp;
use analyses::var::{Qualifier, Var};

fn x(node: usize) -> Polynomial {
    Polynomial::var(&Var::from_node(node, ATyp::scalar(), Qualifier::Witness))
}

fn lit(c: u64) -> Polynomial {
    Polynomial::lit(&Fe::from_u64(c))
}

fn constant_of(p: &Polynomial) -> Option<Fe> {
    match constancy(p) {
        Constancy::Constant(c) => Some(c),
        _ => None,
    }
}

#[test]
fn difference_of_a_variable_with_itself_is_zero() {
    let p = Polynomial::Sub(Box::new(x(0)), Box::new(x(0)));
    assert!(constant_of(&p).expect("constant").same(&Fe::zero()));
}

#[test]
fn square_expansion_cancels_to_one() {
    // (x + 1)^2 - x*x - 2*x = 1
    let sq = x(0).add(&lit(1)).pow(2);
    let p = sq.sub(&x(0).mul(&x(0))).sub(&lit(2).mul(&x(0)));
    assert!(constant_of(&p).expect("constant").same(&Fe::one()));
}

#[test]
fn products_commute_in_canonical_form() {
    let p = x(0).mul(&x(1)).sub(&x(1).mul(&x(0)));
    assert!(constant_of(&p).expect("constant").same(&Fe::zero()));
}

#[test]
fn a_variable_is_not_constant() {
    assert!(matches!(constancy(&x(0)), Constancy::NotConstant));
    let p = x(0).pow(3).sub(&x(0).pow(2));
    assert!(matches!(constancy(&p), Constancy::NotConstant));
}

#[test]
fn literal_is_its_own_constant() {
    assert!(constant_of(&lit(7)).expect("constant").same(&Fe::from_u64(7)));
    // x^0 is one, whatever x is
    assert!(constant_of(&Polynomial::Pow(Box::new(x(3)), 0)).expect("constant").same(&Fe::one()));
}

#[test]
fn resolve_const_exp_reads_canonical_constants() {
    let src = PolySource::new(vec![Polynomial::Sub(Box::new(x(0)), Box::new(x(0)))], ATyp::scalar());
    assert_eq!(resolve_const_exp(&src), Some(0));
    let src = PolySource::new(vec![x(0).add(&lit(3)).sub(&x(0))], ATyp::scalar());
    assert_eq!(resolve_const_exp(&src), Some(3));
    let src = PolySource::new(vec![x(0)], ATyp::scalar());
    assert_eq!(resolve_const_exp(&src), None);
    let src = PolySource::new(vec![lit(1), lit(2)], ATyp::Uni(1));
    assert_eq!(resolve_const_exp(&src), None);
    let src = PolySource::new(vec![Polynomial::lit(&Fe::one().neg())], ATyp::scalar());
    assert_eq!(resolve_const_exp(&src), None);
}
