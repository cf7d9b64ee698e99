//! IPv4 addresses as the engine holds them: four plain octets, with the
//! canonical dotted-quad text form used at the host boundary.

use vstd::prelude::*;

verus! {

/// An IPv4 address.
#[derive(Clone, Copy, PartialEq, Eq, Structural, Debug)]
pub struct Ipv4 {
    pub a: u8,
    pub b: u8,
    pub c: u8,
    pub d: u8,
}

/// The decimal digits of an octet value, most significant first, with no
/// leading zero.
pub open spec fn dec_digits(n: int) -> Seq<u8> {
    if n < 10 {
        seq![(0x30 + n) as u8]
    } else if n < 100 {
        seq![(0x30 + n / 10) as u8, (0x30 + n % 10) as u8]
    } else {
        seq![(0x30 + n / 100) as u8, (0x30 + (n / 10) % 10) as u8, (0x30 + n % 10) as u8]
    }
}

/// The canonical dotted-quad text of an address.
pub open spec fn dotted_quad(ip: Ipv4) -> Seq<u8> {
    dec_digits(ip.a as int) + seq![0x2eu8] + dec_digits(ip.b as int) + seq![0x2eu8] + dec_digits(
        ip.c as int,
    ) + seq![0x2eu8] + dec_digits(ip.d as int)
}

/// Appends the decimal digits of one octet.
fn push_octet(out: &mut Vec<u8>, x: u8)
    ensures
        final(out)@ == old(out)@ + dec_digits(x as int),
{
    if x >= 100 {
        out.push(0x30 + x / 100);
        out.push(0x30 + (x / 10) % 10);
        out.push(0x30 + x % 10);
        proof {
            assert(out@ =~= old(out)@ + dec_digits(x as int));
        }
    } else if x >= 10 {
        out.push(0x30 + x / 10);
        out.push(0x30 + x % 10);
        proof {
            assert(out@ =~= old(out)@ + dec_digits(x as int));
        }
    } else {
        out.push(0x30 + x);
        proof {
            assert(out@ =~= old(out)@ + dec_digits(x as int));
        }
    }
}

/// Whether a byte is an ASCII decimal digit.
pub open spec fn is_digit(ch: u8) -> bool {
    0x30 <= ch <= 0x39
}

/// How the canonical digit run of a value relates the bytes it occupies.
proof fn lemma_octet_shape(s: Seq<u8>, i: int, v: u8)
    requires
        0 <= i,
        i + dec_digits(v as int).len() <= s.len(),
        s.subrange(i, i + dec_digits(v as int).len() as int) == dec_digits(v as int),
    ensures
        is_digit(s[i]),
        v < 10 ==> s[i] == 0x30 + v,
        10 <= v < 100 ==> s[i] == 0x30 + v / 10 && is_digit(s[i + 1]) && s[i + 1] == 0x30 + v % 10,
        100 <= v ==> s[i] == 0x30 + v / 100 && is_digit(s[i + 1]) && s[i + 1] == 0x30 + (v / 10)
            % 10 && is_digit(s[i + 2]) && s[i + 2] == 0x30 + v % 10,
{
    let dd = dec_digits(v as int);
    let sub = s.subrange(i, i + dd.len() as int);
    assert(s[i] == sub[0] && sub[0] == dd[0]);
    if v >= 10 {
        assert(s[i + 1] == sub[1] && sub[1] == dd[1]);
    }
    if v >= 100 {
        assert(s[i + 2] == sub[2] && sub[2] == dd[2]);
    }
}

/// Scans one octet of a dotted quad at position `i`: a canonical decimal
/// run (no leading zero, value at most 255) that the following byte, if
/// any, does not extend. Returns the value and the position after the run.
#[verifier::rlimit(50)]
fn scan_octet(s: &Vec<u8>, i: usize) -> (r: Option<(u8, usize)>)
    requires
        i <= s@.len(),
    ensures
        r matches Some((v, j)) ==> i < j <= s@.len() && s@.subrange(i as int, j as int)
            == dec_digits(v as int) && (j == s@.len() || !is_digit(s@[j as int])),
        forall|v: u8|
            (i + dec_digits(v as int).len() <= s@.len() && s@.subrange(
                i as int,
                i + dec_digits(v as int).len(),
            ) == dec_digits(v as int) && (i + dec_digits(v as int).len() == s@.len() || !is_digit(
                s@[i + dec_digits(v as int).len()],
            ))) ==> r == Some((v, (i + dec_digits(v as int).len()) as usize)),
{
    let ghost g = s@;
    let n = s.len();
    if i >= n || s[i] < 0x30 || s[i] > 0x39 {
        proof {
            assert forall|v: u8|
                !(i + dec_digits(v as int).len() <= g.len() && g.subrange(
                    i as int,
                    i + dec_digits(v as int).len(),
                ) == dec_digits(v as int)) by {
                if i + dec_digits(v as int).len() <= g.len() && g.subrange(
                    i as int,
                    i + dec_digits(v as int).len(),
                ) == dec_digits(v as int) {
                    lemma_octet_shape(g, i as int, v);
                }
            }
        }
        return None;
    }
    let d0 = s[i] - 0x30;
    if i + 1 == n || s[i + 1] < 0x30 || s[i + 1] > 0x39 {
        proof {
            assert(g.subrange(i as int, i + 1) =~= dec_digits(d0 as int));
            assert forall|v: u8|
                (i + dec_digits(v as int).len() <= g.len() && g.subrange(
                    i as int,
                    i + dec_digits(v as int).len(),
                ) == dec_digits(v as int) && (i + dec_digits(v as int).len() == g.len()
                    || !is_digit(g[i + dec_digits(v as int).len()]))) implies v == d0
                && dec_digits(v as int).len() == 1 by {
                lemma_octet_shape(g, i as int, v);
            }
        }
        return Some((d0, i + 1));
    }
    if d0 == 0 {
        proof {
            assert forall|v: u8|
                !(i + dec_digits(v as int).len() <= g.len() && g.subrange(
                    i as int,
                    i + dec_digits(v as int).len(),
                ) == dec_digits(v as int) && (i + dec_digits(v as int).len() == g.len()
                    || !is_digit(g[i + dec_digits(v as int).len()]))) by {
                if i + dec_digits(v as int).len() <= g.len() && g.subrange(
                    i as int,
                    i + dec_digits(v as int).len(),
                ) == dec_digits(v as int) && (i + dec_digits(v as int).len() == g.len()
                    || !is_digit(g[i + dec_digits(v as int).len()])) {
                    lemma_octet_shape(g, i as int, v);
                }
            }
        }
        return None;
    }
    let v2 = d0 * 10 + (s[i + 1] - 0x30);
    if i + 2 == n || s[i + 2] < 0x30 || s[i + 2] > 0x39 {
        proof {
            assert(v2 as int / 10 == d0 as int && v2 as int % 10 == g[i + 1] - 0x30);
            assert(g.subrange(i as int, i + 2) =~= dec_digits(v2 as int));
            assert forall|v: u8|
                (i + dec_digits(v as int).len() <= g.len() && g.subrange(
                    i as int,
                    i + dec_digits(v as int).len(),
                ) == dec_digits(v as int) && (i + dec_digits(v as int).len() == g.len()
                    || !is_digit(g[i + dec_digits(v as int).len()]))) implies v == v2
                && dec_digits(v as int).len() == 2 by {
                lemma_octet_shape(g, i as int, v);
                if 10 <= v < 100 {
                    assert(v == (v / 10) * 10 + v % 10);
                }
            }
        }
        return Some((v2, i + 2));
    }
    let v3: u32 = (v2 as u32) * 10 + ((s[i + 2] - 0x30) as u32);
    if v3 > 255 || (i + 3 < n && s[i + 3] >= 0x30 && s[i + 3] <= 0x39) {
        proof {
            assert forall|v: u8|
                !(i + dec_digits(v as int).len() <= g.len() && g.subrange(
                    i as int,
                    i + dec_digits(v as int).len(),
                ) == dec_digits(v as int) && (i + dec_digits(v as int).len() == g.len()
                    || !is_digit(g[i + dec_digits(v as int).len()]))) by {
                if i + dec_digits(v as int).len() <= g.len() && g.subrange(
                    i as int,
                    i + dec_digits(v as int).len(),
                ) == dec_digits(v as int) && (i + dec_digits(v as int).len() == g.len()
                    || !is_digit(g[i + dec_digits(v as int).len()])) {
                    lemma_octet_shape(g, i as int, v);
                    if 100 <= v {
                        assert(v == (v / 100) * 100 + ((v / 10) % 10) * 10 + v % 10);
                        assert(v == v3);
                    }
                }
            }
        }
        return None;
    }
    let v = v3 as u8;
    proof {
        assert(v3 as int / 100 == d0 as int);
        assert((v3 as int / 10) % 10 == g[i + 1] - 0x30);
        assert(v3 as int % 10 == g[i + 2] - 0x30);
        assert(g.subrange(i as int, i + 3) =~= dec_digits(v3 as int));
        assert forall|w: u8|
            (i + dec_digits(w as int).len() <= g.len() && g.subrange(
                i as int,
                i + dec_digits(w as int).len(),
            ) == dec_digits(w as int) && (i + dec_digits(w as int).len() == g.len() || !is_digit(
                g[i + dec_digits(w as int).len()],
            ))) implies w == v && dec_digits(w as int).len() == 3 by {
            lemma_octet_shape(g, i as int, w);
            if 100 <= w {
                assert(w == (w / 100) * 100 + ((w / 10) % 10) * 10 + w % 10);
            }
        }
    }
    Some((v, i + 3))
}

/// The text of a run of octets separated by single dots.
pub open spec fn octet_run_text(vs: Seq<u8>) -> Seq<u8>
    decreases vs.len(),
{
    if vs.len() <= 1 {
        dec_digits(vs[0] as int)
    } else {
        dec_digits(vs[0] as int) + seq![0x2eu8] + octet_run_text(vs.drop_first())
    }
}

/// Reads `k` dot-separated canonical octets filling the text from `i` to
/// its end. Succeeds exactly when the rest of the text is such a run.
#[verifier::rlimit(60)]
fn parse_octets(s: &Vec<u8>, i: usize, k: u8) -> (r: Option<Vec<u8>>)
    requires
        i <= s@.len(),
        1 <= k,
    ensures
        r matches Some(ws) ==> ws@.len() == k && s@.subrange(i as int, s@.len() as int)
            == octet_run_text(ws@),
        forall|vs: Seq<u8>|
            (vs.len() == k && s@.subrange(i as int, s@.len() as int) == octet_run_text(vs))
                ==> (r matches Some(ws) && ws@ == vs),
    decreases k,
{
    let ghost g = s@;
    let n = s.len();
    let scanned = scan_octet(s, i);
    proof {
        assert forall|vs: Seq<u8>|
            (vs.len() == k && g.subrange(i as int, g.len() as int) == octet_run_text(vs)) implies (
        scanned == Some((vs[0], (i + dec_digits(vs[0] as int).len()) as usize))) by {
            let dd = dec_digits(vs[0] as int);
            let tail = g.subrange(i as int, g.len() as int);
            if vs.len() <= 1 {
                assert(tail == dd);
                assert(g.subrange(i as int, i + dd.len()) =~= dd);
                assert(i + dd.len() == g.len());
            } else {
                assert(tail == dd + seq![0x2eu8] + octet_run_text(vs.drop_first()));
                assert(tail.len() >= dd.len() + 1);
                assert(g.subrange(i as int, i + dd.len()) =~= dd);
                assert(tail[dd.len() as int] == 0x2e);
                assert(g[i + dd.len()] == tail[dd.len() as int]);
            }
        }
    }
    let (v0, j) = match scanned {
        None => {
            return None;
        },
        Some(p) => p,
    };
    if k == 1 {
        if j != n {
            return None;
        }
        let mut ws: Vec<u8> = Vec::new();
        ws.push(v0);
        proof {
            assert(octet_run_text(ws@) == dec_digits(v0 as int));
            assert forall|vs: Seq<u8>|
                (vs.len() == k && g.subrange(i as int, g.len() as int) == octet_run_text(
                    vs,
                )) implies ws@ == vs by {
                assert(vs =~= ws@);
            }
        }
        return Some(ws);
    }
    if j >= n || s[j] != 0x2e {
        proof {
            assert forall|vs: Seq<u8>|
                !(vs.len() == k && g.subrange(i as int, g.len() as int) == octet_run_text(
                    vs,
                )) by {
                if vs.len() == k && g.subrange(i as int, g.len() as int) == octet_run_text(vs) {
                    let dd = dec_digits(vs[0] as int);
                    let tail = g.subrange(i as int, g.len() as int);
                    assert(g[i + dd.len()] == tail[dd.len() as int]);
                    assert(tail[dd.len() as int] == 0x2e);
                }
            }
        }
        return None;
    }
    let rest = parse_octets(s, j + 1, k - 1);
    proof {
        assert forall|vs: Seq<u8>|
            (vs.len() == k && g.subrange(i as int, g.len() as int) == octet_run_text(vs)) implies (
        rest matches Some(rs) && rs@ == vs.drop_first()) by {
            let dd = dec_digits(vs[0] as int);
            let tail = g.subrange(i as int, g.len() as int);
            assert(tail == dd + seq![0x2eu8] + octet_run_text(vs.drop_first()));
            assert(j == i + dd.len());
            assert forall|m: int| 0 <= m < octet_run_text(vs.drop_first()).len() implies g.subrange(
                j + 1,
                g.len() as int,
            )[m] == octet_run_text(vs.drop_first())[m] by {
                assert(g.subrange(j + 1, g.len() as int)[m] == g[j + 1 + m]);
                assert(g[j + 1 + m] == tail[dd.len() + 1 + m]);
            }
            assert(g.subrange(j + 1, g.len() as int) =~= octet_run_text(vs.drop_first()));
        }
    }
    match rest {
        None => None,
        Some(tail_vals) => {
            let mut ws: Vec<u8> = Vec::new();
            ws.push(v0);
            let mut t: usize = 0;
            let tn = tail_vals.len();
            while t < tn
                invariant
                    t <= tn,
                    tn == tail_vals@.len(),
                    ws@ == seq![v0] + tail_vals@.subrange(0, t as int),
                decreases tn - t,
            {
                ws.push(tail_vals[t]);
                proof {
                    assert(ws@ =~= seq![v0] + tail_vals@.subrange(0, t + 1));
                }
                t = t + 1;
            }
            proof {
                assert(ws@ =~= seq![v0] + tail_vals@);
                assert(ws@.drop_first() =~= tail_vals@);
                assert(octet_run_text(ws@) =~= g.subrange(i as int, g.len() as int));
                assert forall|vs: Seq<u8>|
                    (vs.len() == k && g.subrange(i as int, g.len() as int) == octet_run_text(
                        vs,
                    )) implies ws@ == vs by {
                    assert(vs[0] == v0 && vs.drop_first() == tail_vals@);
                    assert(vs =~= ws@);
                }
            }
            Some(ws)
        },
    }
}

/// A dotted quad is the four-octet run of the address's octets.
proof fn lemma_quad_is_run(ip: Ipv4)
    ensures
        dotted_quad(ip) == octet_run_text(seq![ip.a, ip.b, ip.c, ip.d]),
{
    let vs = seq![ip.a, ip.b, ip.c, ip.d];
    assert(seq![ip.c, ip.d].drop_first() =~= seq![ip.d]);
    assert(seq![ip.b, ip.c, ip.d].drop_first() =~= seq![ip.c, ip.d]);
    assert(vs.drop_first() =~= seq![ip.b, ip.c, ip.d]);
    assert(octet_run_text(seq![ip.d]) == dec_digits(ip.d as int));
    assert(octet_run_text(seq![ip.c, ip.d]) == dec_digits(ip.c as int) + seq![0x2eu8]
        + dec_digits(ip.d as int));
    assert(octet_run_text(seq![ip.b, ip.c, ip.d]) == dec_digits(ip.b as int) + seq![0x2eu8]
        + octet_run_text(seq![ip.c, ip.d]));
    assert(octet_run_text(vs) == dec_digits(ip.a as int) + seq![0x2eu8] + octet_run_text(
        vs.drop_first(),
    ));
    assert(dotted_quad(ip) =~= octet_run_text(vs));
}

/// Reads an address from its canonical dotted-quad form: four decimal
/// octets without leading zeros, separated by single dots, and nothing
/// else. Succeeds exactly on such strings.
pub fn parse_ipv4(s: &Vec<u8>) -> (r: Option<Ipv4>)
    ensures
        r matches Some(ip) ==> s@ == dotted_quad(ip),
        forall|ip: Ipv4| s@ == dotted_quad(ip) ==> r == Some(ip),
{
    let ghost g = s@;
    let parsed = parse_octets(s, 0, 4);
    proof {
        assert(g.subrange(0, g.len() as int) =~= g);
        assert forall|ip: Ipv4| g == dotted_quad(ip) implies (parsed matches Some(ws) && ws@
            == seq![ip.a, ip.b, ip.c, ip.d]) by {
            lemma_quad_is_run(ip);
        }
    }
    match parsed {
        None => None,
        Some(ws) => {
            let ip = Ipv4 { a: ws[0], b: ws[1], c: ws[2], d: ws[3] };
            proof {
                assert(ws@ =~= seq![ip.a, ip.b, ip.c, ip.d]);
                lemma_quad_is_run(ip);
            }
            Some(ip)
        },
    }
}

/// Writes an address in its canonical dotted-quad form.
pub fn format_ipv4(ip: Ipv4) -> (out: Vec<u8>)
    ensures
        out@ == dotted_quad(ip),
{
    let mut out: Vec<u8> = Vec::new();
    push_octet(&mut out, ip.a);
    out.push(0x2e);
    push_octet(&mut out, ip.b);
    out.push(0x2e);
    push_octet(&mut out, ip.c);
    out.push(0x2e);
    push_octet(&mut out, ip.d);
    proof {
        assert(out@ =~= dotted_quad(ip));
    }
    out
}

} // verus!
