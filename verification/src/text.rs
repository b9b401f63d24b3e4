//! Decimal rendering of indices and `::`-separated name paths.
use vstd::prelude::*;

verus! {

/// The character of decimal digit `d`.
pub open spec fn digit_char(d: nat) -> char {
    (48 + d) as char
}

/// Decimal digits of `n`, most significant first, without leading zeros.
pub open spec fn dec(n: nat) -> Seq<char>
    decreases n,
{
    if n < 10 {
        seq![digit_char(n)]
    } else {
        dec(n / 10).push(digit_char(n % 10))
    }
}

/// The path separator `::`.
pub open spec fn sep() -> Seq<char> {
    seq![':', ':']
}

/// The segments of `s` in decimal, joined by `::`.
pub open spec fn path(s: Seq<usize>) -> Seq<char>
    decreases s.len(),
{
    if s.len() == 0 {
        Seq::empty()
    } else if s.len() == 1 {
        dec(s[0] as nat)
    } else {
        path(s.drop_last()) + sep() + dec(s.last() as nat)
    }
}

fn digit_str(d: usize) -> (r: &'static str)
    requires
        d < 10,
    ensures
        r@ == seq![digit_char(d as nat)],
{
    if d == 0 {
        proof { reveal_strlit("0"); }
        "0"
    } else if d == 1 {
        proof { reveal_strlit("1"); }
        "1"
    } else if d == 2 {
        proof { reveal_strlit("2"); }
        "2"
    } else if d == 3 {
        proof { reveal_strlit("3"); }
        "3"
    } else if d == 4 {
        proof { reveal_strlit("4"); }
        "4"
    } else if d == 5 {
        proof { reveal_strlit("5"); }
        "5"
    } else if d == 6 {
        proof { reveal_strlit("6"); }
        "6"
    } else if d == 7 {
        proof { reveal_strlit("7"); }
        "7"
    } else if d == 8 {
        proof { reveal_strlit("8"); }
        "8"
    } else {
        proof { reveal_strlit("9"); }
        "9"
    }
}

/// Appends the decimal digits of `n` to `s`.
pub fn push_decimal(s: &mut String, n: usize)
    ensures
        final(s)@ == old(s)@ + dec(n as nat),
    decreases n,
{
    if n < 10 {
        s.append(digit_str(n));
    } else {
        push_decimal(s, n / 10);
        s.append(digit_str(n % 10));
        assert(old(s)@ + dec((n / 10) as nat) + seq![digit_char((n % 10) as nat)] =~= old(s)@
            + dec(n as nat));
    }
}

/// The decimal rendering of `n`.
pub fn decimal(n: usize) -> (r: String)
    ensures
        r@ == dec(n as nat),
{
    let mut s = String::new();
    push_decimal(&mut s, n);
    assert(Seq::<char>::empty() + dec(n as nat) =~= dec(n as nat));
    s
}

/// Appends `::`.
pub fn push_sep(s: &mut String)
    ensures
        final(s)@ == old(s)@ + sep(),
{
    proof {
        reveal_strlit("::");
    }
    s.append("::");
}

/// Appends the segments of `segs`, joined by `::`.
pub fn push_path(s: &mut String, segs: &[usize])
    ensures
        final(s)@ == old(s)@ + path(segs@),
{
    let mut i: usize = 0;
    assert(segs@.subrange(0, 0) =~= Seq::<usize>::empty());
    assert(old(s)@ + path(Seq::<usize>::empty()) =~= old(s)@);
    while i < segs.len()
        invariant
            i <= segs@.len(),
            s@ == old(s)@ + path(segs@.subrange(0, i as int)),
        decreases segs@.len() - i,
    {
        let ghost before = s@;
        let ghost pre = segs@.subrange(0, i as int);
        let ghost next = segs@.subrange(0, i + 1);
        assert(next.drop_last() =~= pre);
        assert(next.last() == segs@[i as int]);
        if i > 0 {
            push_sep(s);
        }
        push_decimal(s, segs[i]);
        if i == 0 {
            assert(pre =~= Seq::<usize>::empty());
            assert(s@ =~= old(s)@ + path(next));
        } else {
            assert(s@ =~= old(s)@ + path(next));
        }
        i = i + 1;
    }
    assert(segs@.subrange(0, segs@.len() as int) =~= segs@);
}


proof fn lemma_dec_len(n: nat)
    ensures
        dec(n).len() >= 1,
        n >= 10 ==> dec(n).len() >= 2,
    decreases n,
{
    if n >= 10 {
        lemma_dec_len(n / 10);
    }
}

/// Distinct numbers have distinct decimal renderings.
pub proof fn lemma_dec_injective(a: nat, b: nat)
    requires
        dec(a) == dec(b),
    ensures
        a == b,
    decreases a,
{
    lemma_dec_len(a);
    lemma_dec_len(b);
    if a < 10 && b < 10 {
        assert(dec(a)[0] == digit_char(a));
        assert(dec(b)[0] == digit_char(b));
        assert((48 + a) as char as int == 48 + a);
        assert((48 + b) as char as int == 48 + b);
    } else if a >= 10 && b >= 10 {
        assert(dec(a).last() == digit_char(a % 10));
        assert(dec(b).last() == digit_char(b % 10));
        assert((48 + a % 10) as char as int == 48 + a % 10);
        assert((48 + b % 10) as char as int == 48 + b % 10);
        assert(dec(a).drop_last() == dec(a / 10));
        assert(dec(b).drop_last() == dec(b / 10));
        lemma_dec_injective(a / 10, b / 10);
    }
}

/// A decimal rendering holds no `:`.
proof fn lemma_dec_no_colon(n: nat)
    ensures
        forall|i: int| 0 <= i < dec(n).len() ==> #[trigger] dec(n)[i] != ':',
    decreases n,
{
    if n < 10 {
        assert((48 + n) as char as int == 48 + n);
        assert(dec(n)[0] == digit_char(n));
    } else {
        lemma_dec_no_colon(n / 10);
        assert((48 + n % 10) as char as int == 48 + n % 10);
        assert forall|i: int| 0 <= i < dec(n).len() implies #[trigger] dec(n)[i] != ':' by {
            if i < dec(n / 10).len() {
                assert(dec(n)[i] == dec(n / 10)[i]);
            } else {
                assert(dec(n)[i] == digit_char(n % 10));
            }
        }
    }
}

/// Law: a path determines its segments; distinct segment lists are
/// rendered differently.
pub proof fn lemma_path_injective(a: Seq<usize>, b: Seq<usize>)
    requires
        path(a) == path(b),
    ensures
        a == b,
    decreases a.len() + b.len(),
{
    if a.len() == 0 || b.len() == 0 {
        if a.len() > 0 {
            lemma_path_nonempty(a);
        }
        if b.len() > 0 {
            lemma_path_nonempty(b);
        }
        assert(a =~= b);
    } else if a.len() == 1 && b.len() == 1 {
        lemma_dec_injective(a[0] as nat, b[0] as nat);
        assert(a =~= b);
    } else if a.len() == 1 || b.len() == 1 {
        let (one, more) = if a.len() == 1 { (a, b) } else { (b, a) };
        let c = path(more);
        let k = path(more.drop_last()).len() as int;
        assert(c[k] == ':');
        lemma_dec_no_colon(one[0] as nat);
        assert(path(one) == dec(one[0] as nat));
        assert(dec(one[0] as nat)[k] == ':');
    } else {
        let c = path(a);
        let da = dec(a.last() as nat);
        let db = dec(b.last() as nat);
        lemma_dec_no_colon(a.last() as nat);
        lemma_dec_no_colon(b.last() as nat);
        let pa = path(a.drop_last());
        let pb = path(b.drop_last());
        assert(c == pa + sep() + da);
        assert(c == pb + sep() + db);
        if da.len() < db.len() {
            let i = c.len() - da.len() - 1;
            assert(c[i] == ':');
            assert(db[i - pb.len() - 2] == c[i]);
        } else if db.len() < da.len() {
            let i = c.len() - db.len() - 1;
            assert(c[i] == ':');
            assert(da[i - pa.len() - 2] == c[i]);
        }
        assert(da.len() == db.len());
        assert(pa =~= c.subrange(0, c.len() - da.len() - 2));
        assert(pb =~= c.subrange(0, c.len() - db.len() - 2));
        assert(da =~= c.subrange(c.len() - da.len(), c.len() as int));
        assert(db =~= c.subrange(c.len() - db.len(), c.len() as int));
        lemma_dec_injective(a.last() as nat, b.last() as nat);
        lemma_path_injective(a.drop_last(), b.drop_last());
        assert(a =~= a.drop_last().push(a.last()));
        assert(b =~= b.drop_last().push(b.last()));
    }
}

proof fn lemma_path_nonempty(s: Seq<usize>)
    requires
        s.len() > 0,
    ensures
        path(s).len() > 0,
{
    lemma_dec_len(s.last() as nat);
    if s.len() == 1 {
        assert(s.last() == s[0]);
    }
}

} // verus!
