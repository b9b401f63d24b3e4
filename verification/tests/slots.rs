use analyses::typ::ATyp;
use analyses::var::{Qualifier, Var};

/// The slots of a vector of polynomials: one per coefficient, all under the
/// var, scalar, and pairwise distinct.
#[test]
fn slots_lie_under_the_var_and_differ() {
    let var = Var::from_node(4, ATyp::Vec(Box::new(ATyp::VPoly(2, 2)), 2), Qualifier::Witness);
    let slots = var.slots();
    assert_eq!(slots.len(), 12);
    for (i, s) in slots.iter().enumerate() {
        assert_eq!(s.reference, var.reference);
        assert!(s.index.len() > var.index.len());
        assert_eq!(&s.index[..var.index.len()], &var.index[..]);
        assert!(s.typ.same(&ATyp::scalar()));
        for t in &slots[i + 1..] {
            assert!(!s.same(t));
        }
    }
}
