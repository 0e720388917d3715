//! Plain-text listing of sites: one `x, y` line per site, in decimal.
use vstd::prelude::*;

verus! {

/// The ASCII digits of `n`, most significant first, without leading zeros.
pub open spec fn digits(n: nat) -> Seq<u8>
    decreases n,
{
    if n < 10 {
        seq![(48 + n) as u8]
    } else {
        digits(n / 10).push((48 + n % 10) as u8)
    }
}

/// `v` in decimal, with a leading `-` when negative.
pub open spec fn decimal(v: int) -> Seq<u8> {
    if v < 0 {
        seq![45u8] + digits((-v) as nat)
    } else {
        digits(v as nat)
    }
}

/// The line for one site: `x, y`.
pub open spec fn position_line(p: [i32; 2]) -> Seq<u8> {
    decimal(p[0] as int) + seq![44u8, 32u8] + decimal(p[1] as int)
}

/// The lines of all sites, joined by newlines (no newline after the last).
pub open spec fn lines_of(points: Seq<[i32; 2]>) -> Seq<u8>
    decreases points.len(),
{
    if points.len() == 0 {
        Seq::empty()
    } else if points.len() == 1 {
        position_line(points[0])
    } else {
        lines_of(points.drop_last()) + seq![10u8] + position_line(points.last())
    }
}

fn push_digits(out: &mut Vec<u8>, n: u64)
    ensures
        final(out)@ == old(out)@ + digits(n as nat),
    decreases n,
{
    if n >= 10 {
        push_digits(out, n / 10);
    }
    out.push((48 + n % 10) as u8);
    proof {
        if n >= 10 {
            assert(old(out)@ + digits(n as nat) =~= old(out)@ + digits((n / 10) as nat) + seq![
                (48 + n % 10) as u8,
            ]);
        } else {
            assert(old(out)@ + digits(n as nat) =~= old(out)@.push((48 + n % 10) as u8));
        }
    }
}

fn push_decimal(out: &mut Vec<u8>, v: i32)
    ensures
        final(out)@ == old(out)@ + decimal(v as int),
{
    if v < 0 {
        out.push(45u8);
        let m: u64 = (-(v as i64)) as u64;
        push_digits(out, m);
        assert(out@ =~= old(out)@ + decimal(v as int)) by {
            assert(old(out)@.push(45u8) + digits(m as nat) =~= old(out)@ + (seq![45u8] + digits(
                m as nat,
            )));
        }
    } else {
        push_digits(out, v as u64);
    }
}

/// The sites as text, one `x, y` line each, in order, lines joined by `\n`.
pub fn positions_text(positions: &Vec<[i32; 2]>) -> (r: Vec<u8>)
    ensures
        r@ == lines_of(positions@),
{
    let mut out: Vec<u8> = Vec::new();
    let mut i: usize = 0;
    while i < positions.len()
        invariant
            i <= positions@.len(),
            out@ == lines_of(positions@.take(i as int)),
        decreases positions.len() - i,
    {
        let ghost before = out@;
        let p = positions[i];
        if i > 0 {
            out.push(10u8);
        }
        push_decimal(&mut out, p[0]);
        out.push(44u8);
        out.push(32u8);
        push_decimal(&mut out, p[1]);
        proof {
            let next = positions@.take(i as int + 1);
            assert(next.drop_last() =~= positions@.take(i as int));
            assert(next.last() == p);
            if i > 0 {
                assert(out@ =~= before + seq![10u8] + position_line(p));
            } else {
                assert(positions@.take(0) =~= Seq::<[i32; 2]>::empty());
                assert(out@ =~= position_line(p));
            }
        }
        i = i + 1;
    }
    assert(positions@.take(positions@.len() as int) =~= positions@);
    out
}

} // verus!
