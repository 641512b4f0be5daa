//! Decimal numbers in fixed-point units of `10^-9`, and fitness files: one
//! `phenotype id,fitness` record per line.
use vstd::prelude::*;
use crate::pop::zero_counts;
use crate::text::{is_numeral, lines_of, numeral_value, parse_numeral, split, split_bytes, text_lines};

verus! {

/// The fraction digits `f` cut or padded with zeros to nine digits.
pub open spec fn nine_digits(f: Seq<u8>) -> Seq<u8> {
    if f.len() >= 9 {
        f.take(9)
    } else {
        f + Seq::new((9 - f.len()) as nat, |i: int| 48u8)
    }
}

/// Whether `t` is a decimal: digits, or digits, a point and digits.
pub open spec fn is_decimal(t: Seq<u8>) -> bool {
    let p = split(t, 46);
    &&& (p.len() == 1 || p.len() == 2)
    &&& is_numeral(p[0])
    &&& (p.len() == 2 ==> is_numeral(p[1]))
}

/// The value of a decimal in units of `10^-9`, digits after the ninth
/// fraction digit dropped.
pub open spec fn decimal_units(t: Seq<u8>) -> int {
    let p = split(t, 46);
    numeral_value(p[0]) * 1_000_000_000 + if p.len() == 2 { numeral_value(nine_digits(p[1])) } else { 0 }
}

/// Ten to the power `n`.
pub open spec fn ten_pow(n: nat) -> int
    decreases n,
{
    if n == 0 {
        1
    } else {
        10 * ten_pow((n - 1) as nat)
    }
}

proof fn lemma_numeral_upper(s: Seq<u8>)
    requires
        forall|i: int| 0 <= i < s.len() ==> 48 <= #[trigger] s[i] <= 57,
    ensures
        0 <= numeral_value(s) < ten_pow(s.len()),
    decreases s.len(),
{
    if s.len() > 0 {
        lemma_numeral_upper(s.drop_last());
    }
}

/// Whether `f` is a decimal numeral (see `is_numeral`).
pub fn all_digits(f: &Vec<u8>) -> (r: bool)
    ensures
        r == is_numeral(f@),
{
    if f.len() == 0 {
        return false;
    }
    let mut i: usize = 0;
    while i < f.len()
        invariant
            i <= f.len(),
            forall|j: int| 0 <= j < i ==> 48 <= #[trigger] f@[j] <= 57,
        decreases f.len() - i,
    {
        if f[i] < 48 || f[i] > 57 {
            return false;
        }
        i += 1;
    }
    true
}

/// The value of `t` as a decimal in units of `10^-9` (see `decimal_units`);
/// None unless it is a decimal whose value fits in `u64`.
pub fn parse_decimal_units(t: &Vec<u8>) -> (r: Option<u64>)
    ensures
        r.is_some() <==> is_decimal(t@) && decimal_units(t@) <= u64::MAX,
        r.is_some() ==> r.unwrap() == decimal_units(t@),
{
    let parts = split_bytes(t.as_slice(), 46);
    let ghost ps = split(t@, 46);
    proof {
        crate::text::lemma_split_nonempty(t@, 46);
    }
    assert(parts@.len() == ps.len());
    assert(parts@[0]@ == ps[0]);
    if parts.len() != 1 && parts.len() != 2 {
        return None;
    }
    let whole = match parse_numeral(&parts[0]) {
        Some(v) => v,
        None => {
            proof {
                if is_numeral(ps[0]) {
                    lemma_units_at_least_whole(t@);
                }
            }
            return None;
        },
    };
    let mut frac: u64 = 0;
    if parts.len() == 2 {
        assert(parts@[1]@ == ps[1]);
        let f = &parts[1];
        if !all_digits(f) {
            return None;
        }
        let mut digits: Vec<u8> = Vec::new();
        let mut i: usize = 0;
        while i < 9
            invariant
                i <= 9,
                is_numeral(f@),
                digits@ == nine_digits(f@).take(i as int),
            decreases 9 - i,
        {
            let c = if i < f.len() { f[i] } else { 48u8 };
            assert(nine_digits(f@)[i as int] == c);
            digits.push(c);
            assert(nine_digits(f@).take(i + 1) =~= nine_digits(f@).take(i as int).push(c));
            i += 1;
        }
        assert(nine_digits(f@).take(9) =~= nine_digits(f@));
        proof {
            assert forall|j: int| 0 <= j < digits@.len() implies 48 <= #[trigger] digits@[j] <= 57 by {
                if j >= f@.len() {
                    assert(digits@[j] == 48);
                } else {
                    assert(digits@[j] == f@[j]);
                }
            }
            lemma_numeral_upper(digits@);
            assert(ten_pow(9) == 1_000_000_000) by {
                reveal_with_fuel(ten_pow, 10);
            }
        }
        frac = match parse_numeral(&digits) {
            Some(v) => v,
            None => 0,
        };
    }
    match whole.checked_mul(1_000_000_000) {
        None => None,
        Some(m) => {
            match m.checked_add(frac) {
                None => None,
                Some(v) => Some(v),
            }
        },
    }
}

/// A decimal's value is at least its whole part in units.
proof fn lemma_units_at_least_whole(t: Seq<u8>)
    requires
        is_numeral(split(t, 46)[0]),
        split(t, 46).len() >= 1,
    ensures
        split(t, 46).len() == 2 && is_numeral(split(t, 46)[1]) ==> decimal_units(t) >= numeral_value(split(t, 46)[0])
            * 1_000_000_000,
        numeral_value(split(t, 46)[0]) >= 0,
{
    let p = split(t, 46);
    lemma_numeral_upper(p[0]);
    if p.len() == 2 && is_numeral(p[1]) {
        assert forall|j: int| 0 <= j < nine_digits(p[1]).len() implies 48 <= #[trigger] nine_digits(p[1])[j] <= 57 by {
        }
        lemma_numeral_upper(nine_digits(p[1]));
    }
}

/// The fields of record `y` of a fitness file.
pub open spec fn record(lines: Seq<Seq<u8>>, y: int) -> Seq<Seq<u8>> {
    split(lines[y], 44)
}

/// Whether the lines `lines` are a fitness file: each line a phenotype id
/// below the number of lines, a comma and a decimal fitness that fits in
/// `u64` units.
pub open spec fn fitness_text_ok(lines: Seq<Seq<u8>>) -> bool {
    forall|y: int|
        0 <= y < lines.len() ==> {
            let f = #[trigger] record(lines, y);
            &&& f.len() == 2
            &&& is_numeral(f[0])
            &&& numeral_value(f[0]) < lines.len()
            &&& is_decimal(f[1])
            &&& decimal_units(f[1]) <= u64::MAX
        }
}

/// The fitness of phenotype `p` after the first `k` records: that of the
/// last record for `p`, 0 when there is none.
pub open spec fn fitness_upto(lines: Seq<Seq<u8>>, p: int, k: int) -> int
    decreases k,
{
    if k <= 0 {
        0
    } else if numeral_value(record(lines, k - 1)[0]) == p {
        decimal_units(record(lines, k - 1)[1])
    } else {
        fitness_upto(lines, p, k - 1)
    }
}

/// Reads a fitness file: a fitness for each phenotype id below the number
/// of lines, in units of `10^-9`; None unless the text is a fitness file.
pub fn parse_fitness(text: &[u8]) -> (r: Option<Vec<u64>>)
    ensures
        r.is_some() <==> fitness_text_ok(text_lines(text@)),
        r.is_some() ==> {
            let lines = text_lines(text@);
            let v = r.unwrap();
            &&& v.len() == lines.len()
            &&& forall|p: int| 0 <= p < v.len() ==> #[trigger] v[p] == fitness_upto(lines, p, lines.len() as int)
        },
{
    let lines = lines_of(text);
    let ghost ls = text_lines(text@);
    let n = lines.len();
    assert(n == ls.len());
    let mut pfmap = zero_counts(n);
    let mut y: usize = 0;
    while y < n
        invariant
            ls == text_lines(text@),
            n == lines.len(),
            n == ls.len(),
            lines@.map_values(|v: Vec<u8>| v@) == ls,
            y <= n,
            pfmap.len() == n,
            forall|q: int|
                0 <= q < y ==> {
                    let f = #[trigger] record(ls, q);
                    &&& f.len() == 2
                    &&& is_numeral(f[0])
                    &&& numeral_value(f[0]) < ls.len()
                    &&& is_decimal(f[1])
                    &&& decimal_units(f[1]) <= u64::MAX
                },
            forall|p: int| 0 <= p < n ==> #[trigger] pfmap[p] == fitness_upto(ls, p, y as int),
        decreases n - y,
    {
        assert(lines@[y as int]@ == ls[y as int]);
        let fields = split_bytes(lines[y].as_slice(), 44);
        let ghost f = record(ls, y as int);
        assert(fields@.len() == f.len());
        if fields.len() != 2 {
            return None;
        }
        assert(fields@[0]@ == f[0]);
        assert(fields@[1]@ == f[1]);
        let pid = match parse_numeral(&fields[0]) {
            Some(v) => v,
            None => {
                return None;
            },
        };
        if pid >= n as u64 {
            return None;
        }
        let v = match parse_decimal_units(&fields[1]) {
            Some(v) => v,
            None => {
                return None;
            },
        };
        pfmap.set(pid as usize, v);
        y += 1;
    }
    Some(pfmap)
}

} // verus!
