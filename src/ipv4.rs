use vstd::prelude::*;

verus! {

/// An IPv4 address as its four octets, most significant first.
#[derive(Debug, Clone, Copy, PartialEq, Eq, Structural)]
pub struct Ipv4 {
    pub a: u8,
    pub b: u8,
    pub c: u8,
    pub d: u8,
}

pub open spec fn is_digit(c: u8) -> bool {
    48 <= c <= 57
}

/// The ASCII digit for `d < 10`.
pub open spec fn digit(d: nat) -> u8 {
    (48 + d) as u8
}

/// The decimal text of `n`, without leading zeros.
pub open spec fn dec(n: nat) -> Seq<u8>
    decreases n,
{
    if n < 10 {
        seq![digit(n)]
    } else {
        dec(n / 10).push(digit(n % 10))
    }
}

/// The number that a string of ASCII digits stands for.
pub open spec fn digits_value(p: Seq<u8>) -> nat
    decreases p.len(),
{
    if p.len() == 0 {
        0
    } else {
        digits_value(p.drop_last()) * 10 + (p.last() - 48) as nat
    }
}

/// Dotted-quad text of an address, e.g. `10.0.0.5`.
pub open spec fn ipv4_text(ip: Ipv4) -> Seq<u8> {
    dec(ip.a as nat) + seq![46u8] + dec(ip.b as nat) + seq![46u8] + dec(ip.c as nat) + seq![46u8]
        + dec(ip.d as nat)
}

/// The address that `s` is the dotted-quad text of, if any: four decimal
/// octets of at most 255, without leading zeros, separated by dots.
pub open spec fn ipv4_of(s: Seq<u8>) -> Option<Ipv4> {
    if exists|ip: Ipv4| s == ipv4_text(ip) {
        Some(choose|ip: Ipv4| s == ipv4_text(ip))
    } else {
        None
    }
}

proof fn lemma_dec(n: nat)
    ensures
        dec(n).len() >= 1,
        forall|i: int| 0 <= i < dec(n).len() ==> is_digit(#[trigger] dec(n)[i]),
        n >= 1 ==> dec(n)[0] != 48,
        digits_value(dec(n)) == n,
        n < 10 <==> dec(n).len() == 1,
        n < 100 <==> dec(n).len() <= 2,
        n < 1000 <==> dec(n).len() <= 3,
    decreases n,
{
    if n < 10 {
        assert(dec(n).drop_last() =~= Seq::<u8>::empty());
        assert(digits_value(Seq::<u8>::empty()) == 0);
    } else {
        lemma_dec(n / 10);
        let q = dec(n / 10);
        assert(dec(n).drop_last() =~= q);
        assert(dec(n)[0] == q[0]);
        assert forall|i: int| 0 <= i < dec(n).len() implies is_digit(#[trigger] dec(n)[i]) by {
            if i < q.len() {
                assert(dec(n)[i] == q[i]);
            }
        }
        assert(n == (n / 10) * 10 + n % 10);
    }
}

/// A string of ASCII digits without a leading zero is the decimal text of
/// its value.
proof fn lemma_canonical(p: Seq<u8>)
    requires
        p.len() >= 1,
        forall|i: int| 0 <= i < p.len() ==> is_digit(#[trigger] p[i]),
        p.len() == 1 || p[0] != 48,
    ensures
        p == dec(digits_value(p)),
        p.len() >= 2 ==> digits_value(p) >= 10,
        p[0] != 48 ==> digits_value(p) >= 1,
    decreases p.len(),
{
    let q = p.drop_last();
    let d = (p.last() - 48) as nat;
    if p.len() == 1 {
        assert(digits_value(q) == 0);
        assert(dec(d) =~= p);
    } else {
        assert(q[0] == p[0]);
        lemma_canonical(q);
        let v = digits_value(q);
        assert((v * 10 + d) / 10 == v && (v * 10 + d) % 10 == d) by (nonlinear_arith)
            requires
                d < 10,
        ;
        assert(p =~= q.push(digit(d)));
    }
}

/// `s` holds the decimal text of `v` from `start` on, and no digit follows it.
pub open spec fn octet_at(s: Seq<u8>, start: int, v: u8) -> bool {
    let l = dec(v as nat).len();
    &&& start + l <= s.len()
    &&& s.subrange(start, start + l) == dec(v as nat)
    &&& (start + l == s.len() || !is_digit(s[start + l]))
}

/// Reads one octet of a dotted quad at `start`.
fn parse_octet(s: &[u8], start: usize) -> (r: Option<(u8, usize)>)
    requires
        start <= s@.len(),
    ensures
        forall|v: u8|
            octet_at(s@, start as int, v) <==> r == Some::<(u8, usize)>(
                (v, (start + dec(v as nat).len()) as usize),
            ),
        r matches Some((v, e)) ==> e <= s@.len() && octet_at(s@, start as int, v) && e == start
            + dec(v as nat).len(),
{
    let n = s.len();
    let mut k: usize = 0;
    let mut value: u32 = 0;
    while k < 4 && start + k < n && 48 <= s[start + k] && s[start + k] <= 57
        invariant
            n == s@.len(),
            start <= n,
            k <= 4,
            start + k <= n,
            forall|i: int| start <= i < start + k ==> is_digit(#[trigger] s@[i]),
            value == digits_value(s@.subrange(start as int, start + k)),
            value < 10000,
        decreases 4 - k,
    {
        let ghost p = s@.subrange(start as int, start + k);
        proof {
            lemma_value_bound(p);
        }
        value = value * 10 + (s[start + k] - 48) as u32;
        k = k + 1;
        proof {
            let p1 = s@.subrange(start as int, start + k);
            assert(p1.drop_last() =~= p);
        }
    }
    let ghost run = s@.subrange(start as int, start + k);
    proof {
        assert forall|v: u8| octet_at(s@, start as int, v) implies {
            &&& dec(v as nat).len() == k
            &&& run == dec(v as nat)
        } by {
            lemma_dec(v as nat);
            let l = dec(v as nat).len();
            assert(l <= 3);
            assert forall|i: int| 0 <= i < l implies is_digit(#[trigger] s@[start + i]) by {
                assert(s@[start + i] == dec(v as nat)[i]);
            }
            if k < l {
                assert(is_digit(s@[start + k]));
            }
            if l < k {
                assert(is_digit(s@[start + l]));
            }
            assert(run =~= s@.subrange(start as int, start + l));
        }
    }
    if k == 0 || k == 4 {
        proof {
            assert forall|v: u8| !octet_at(s@, start as int, v) by {
                if octet_at(s@, start as int, v) {
                    lemma_dec(v as nat);
                }
            }
        }
        return None;
    }
    if k >= 2 && s[start] == 48 {
        proof {
            assert forall|v: u8| !octet_at(s@, start as int, v) by {
                if octet_at(s@, start as int, v) {
                    lemma_dec(v as nat);
                    assert(run[0] == s@[start as int]);
                }
            }
        }
        return None;
    }
    proof {
        assert forall|i: int| 0 <= i < run.len() implies is_digit(#[trigger] run[i]) by {
            assert(run[i] == s@[start + i]);
        }
        assert(run[0] == s@[start as int]);
        lemma_canonical(run);
    }
    if value > 255 {
        proof {
            assert forall|v: u8| !octet_at(s@, start as int, v) by {
                if octet_at(s@, start as int, v) {
                    lemma_dec(v as nat);
                }
            }
        }
        return None;
    }
    let v = value as u8;
    proof {
        lemma_dec(v as nat);
        assert(octet_at(s@, start as int, v));
        assert forall|v2: u8| octet_at(s@, start as int, v2) implies v2 == v by {
            lemma_dec(v2 as nat);
        }
    }
    Some((v, start + k))
}

proof fn lemma_value_bound(p: Seq<u8>)
    requires
        p.len() <= 3,
        forall|i: int| 0 <= i < p.len() ==> is_digit(#[trigger] p[i]),
    ensures
        digits_value(p) < 1000,
        p.len() <= 2 ==> digits_value(p) < 100,
        p.len() <= 1 ==> digits_value(p) < 10,
    decreases p.len(),
{
    if p.len() > 0 {
        let q = p.drop_last();
        assert forall|i: int| 0 <= i < q.len() implies is_digit(#[trigger] q[i]) by {
            assert(q[i] == p[i]);
        }
        lemma_value_bound(q);
        assert(is_digit(p[p.len() - 1]));
    }
}

proof fn lemma_text_parts(ip: Ipv4)
    ensures
        ({
            let t = ipv4_text(ip);
            let la = dec(ip.a as nat).len() as int;
            let lb = dec(ip.b as nat).len() as int;
            let lc = dec(ip.c as nat).len() as int;
            let ld = dec(ip.d as nat).len() as int;
            &&& t.len() == la + lb + lc + ld + 3
            &&& octet_at(t, 0, ip.a)
            &&& t[la] == 46
            &&& octet_at(t, la + 1, ip.b)
            &&& t[la + 1 + lb] == 46
            &&& octet_at(t, la + lb + 2, ip.c)
            &&& t[la + lb + 2 + lc] == 46
            &&& octet_at(t, la + lb + lc + 3, ip.d)
        }),
{
    let t = ipv4_text(ip);
    let (da, db, dc, dd) = (dec(ip.a as nat), dec(ip.b as nat), dec(ip.c as nat), dec(ip.d as nat));
    let (la, lb, lc, ld) = (da.len() as int, db.len() as int, dc.len() as int, dd.len() as int);
    assert(t.subrange(0, la) =~= da);
    assert(t.subrange(la + 1, la + 1 + lb) =~= db);
    assert(t.subrange(la + lb + 2, la + lb + 2 + lc) =~= dc);
    assert(t.subrange(la + lb + lc + 3, la + lb + lc + 3 + ld) =~= dd);
}

/// `s` holds the decimal text of `v` from `start` on, and a dot right after it.
pub open spec fn octet_dot_at(s: Seq<u8>, start: int, v: u8) -> bool {
    &&& octet_at(s, start, v)
    &&& start + dec(v as nat).len() < s.len()
    &&& s[start + dec(v as nat).len()] == 46
}

/// Reads one octet of a dotted quad and the dot after it.
fn parse_octet_dot(s: &[u8], start: usize) -> (r: Option<(u8, usize)>)
    requires
        start <= s@.len(),
    ensures
        forall|v: u8|
            octet_dot_at(s@, start as int, v) <==> r == Some::<(u8, usize)>(
                (v, (start + dec(v as nat).len() + 1) as usize),
            ),
        r matches Some((v, e)) ==> e <= s@.len() && octet_dot_at(s@, start as int, v) && e == start
            + dec(v as nat).len() + 1,
{
    match parse_octet(s, start) {
        None => None,
        Some((v, e)) => {
            proof {
                assert forall|v2: u8| octet_at(s@, start as int, v2) implies v2 == v by {}
            }
            if e < s.len() && s[e] == 46 {
                Some((v, e + 1))
            } else {
                None
            }
        },
    }
}

/// Parses dotted-quad text such as `10.0.0.5`.
#[verifier::rlimit(30)]
pub fn parse_ipv4(s: &[u8]) -> (r: Option<Ipv4>)
    ensures
        r == ipv4_of(s@),
{
    let n = s.len();
    let r1 = parse_octet_dot(s, 0);
    let r2 = match r1 {
        Some((_, e1)) => parse_octet_dot(s, e1),
        None => None,
    };
    let r3 = match r2 {
        Some((_, e2)) => parse_octet_dot(s, e2),
        None => None,
    };
    let r4 = match r3 {
        Some((_, e3)) => parse_octet(s, e3),
        None => None,
    };
    let r = match (r1, r2, r3, r4) {
        (Some((a, _)), Some((b, _)), Some((c, _)), Some((d, e4))) => if e4 == n {
            Some(Ipv4 { a, b, c, d })
        } else {
            None
        },
        _ => None,
    };
    proof {
        assert forall|ip: Ipv4| s@ == ipv4_text(ip) implies r == Some(ip) by {
            lemma_text_parts(ip);
            assert(octet_dot_at(s@, 0, ip.a));
            let e1 = dec(ip.a as nat).len() + 1int;
            assert(octet_dot_at(s@, e1, ip.b));
            let e2 = e1 + dec(ip.b as nat).len() + 1int;
            assert(octet_dot_at(s@, e2, ip.c));
            let e3 = e2 + dec(ip.c as nat).len() + 1int;
            assert(octet_at(s@, e3, ip.d));
        }
        if let Some(ip) = r {
            let (a, e1) = r1->Some_0;
            let (b, e2) = r2->Some_0;
            let (c, e3) = r3->Some_0;
            let (d, e4) = r4->Some_0;
            assert(octet_dot_at(s@, 0, a));
            assert(octet_dot_at(s@, e1 as int, b));
            assert(octet_dot_at(s@, e2 as int, c));
            assert(octet_at(s@, e3 as int, d));
            assert(s@ =~= ipv4_text(ip));
        }
    }
    r
}

/// Appends the decimal text of `n` to `out`.
pub fn push_decimal(out: &mut Vec<u8>, n: u32)
    ensures
        final(out)@ == old(out)@ + dec(n as nat),
    decreases n,
{
    if n >= 10 {
        push_decimal(out, n / 10);
    }
    out.push(48 + (n % 10) as u8);
    proof {
        if n < 10 {
            assert(dec(n as nat) =~= seq![digit(n as nat)]);
        }
    }
    assert(out@ =~= old(out)@ + dec(n as nat));
}

/// The dotted-quad text of `ip`.
pub fn ipv4_to_text(ip: Ipv4) -> (r: Vec<u8>)
    ensures
        r@ == ipv4_text(ip),
{
    let mut out: Vec<u8> = Vec::new();
    push_decimal(&mut out, ip.a as u32);
    out.push(46);
    push_decimal(&mut out, ip.b as u32);
    out.push(46);
    push_decimal(&mut out, ip.c as u32);
    out.push(46);
    push_decimal(&mut out, ip.d as u32);
    assert(out@ =~= ipv4_text(ip));
    out
}

} // verus!
