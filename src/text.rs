//! Splitting bytes into fields, and decimal numbers.
use vstd::prelude::*;

verus! {

/// The pieces of `s` between occurrences of `sep`, in order; there is one
/// more piece than there are separators.
pub open spec fn split(s: Seq<u8>, sep: u8) -> Seq<Seq<u8>>
    decreases s.len(),
{
    if s.len() == 0 {
        seq![seq![]]
    } else {
        let p = split(s.drop_last(), sep);
        if s.last() == sep {
            p.push(seq![])
        } else {
            p.update(p.len() - 1, p.last().push(s.last()))
        }
    }
}

pub proof fn lemma_split_nonempty(s: Seq<u8>, sep: u8)
    ensures
        split(s, sep).len() >= 1,
    decreases s.len(),
{
    if s.len() > 0 {
        lemma_split_nonempty(s.drop_last(), sep);
    }
}

/// Whether `s` is a decimal numeral: one or more ASCII digits.
pub open spec fn is_numeral(s: Seq<u8>) -> bool {
    s.len() > 0 && forall|i: int| 0 <= i < s.len() ==> 48 <= #[trigger] s[i] <= 57
}

/// The value of a string of ASCII digits.
pub open spec fn numeral_value(s: Seq<u8>) -> int
    decreases s.len(),
{
    if s.len() == 0 {
        0
    } else {
        numeral_value(s.drop_last()) * 10 + (s.last() - 48)
    }
}

pub open spec fn is_digit(c: u8) -> bool {
    48 <= c <= 57
}

/// Whether `t` is a step rate written as one or two digits (a value below
/// 64), a point and digits, at most 310 bytes in all, with a digit that is
/// not zero: the decimal text of a number in `(0, 64)` no smaller than
/// `1e-307`.
pub open spec fn rate_ok(t: Seq<u8>) -> bool {
    let f = if t[1] == 46 { 2int } else { 3int };
    &&& 3 <= t.len() <= 310
    &&& is_digit(t[0])
    &&& (t[1] == 46 || (t.len() >= 4 && is_digit(t[1]) && t[2] == 46 && (t[0] - 48) * 10 + (t[1] - 48) <= 63))
    &&& forall|i: int| f <= i < t.len() ==> is_digit(#[trigger] t[i])
    &&& exists|i: int| 0 <= i < t.len() && #[trigger] t[i] > 48 && t[i] <= 57
}

/// Whether `t` is a step rate text (see `rate_ok`).
pub fn rate_text_ok(t: &Vec<u8>) -> (r: bool)
    ensures
        r == rate_ok(t@),
{
    if t.len() < 3 || t.len() > 310 || t[0] < 48 || t[0] > 57 {
        return false;
    }
    let f: usize = if t[1] == 46 {
        2
    } else if t.len() >= 4 && t[1] >= 48 && t[1] <= 57 && t[2] == 46 && (t[0] - 48) as u64 * 10 + (t[1] - 48) as u64
        <= 63 {
        3
    } else {
        return false;
    };
    let mut i: usize = f;
    let mut nonzero = t[0] > 48 || (f == 3 && t[1] > 48);
    while i < t.len()
        invariant
            f <= i <= t.len(),
            f == (if t[1] == 46 { 2int } else { 3int }),
            forall|j: int| f <= j < i ==> is_digit(#[trigger] t@[j]),
            nonzero <==> exists|j: int| 0 <= j < i && #[trigger] t@[j] > 48 && t@[j] <= 57,
        decreases t.len() - i,
    {
        if t[i] < 48 || t[i] > 57 {
            return false;
        }
        if t[i] > 48 {
            nonzero = true;
        }
        i += 1;
    }
    nonzero
}

/// A line without the carriage return that may end it.
pub open spec fn line_body(l: Seq<u8>) -> Seq<u8> {
    if l.len() > 0 && l.last() == 13 {
        l.drop_last()
    } else {
        l
    }
}

/// The lines of a text: the pieces between line feeds, each without a
/// final carriage return, and without the empty piece after a final line
/// feed.
pub open spec fn text_lines(s: Seq<u8>) -> Seq<Seq<u8>> {
    let p = split(s, 10);
    let q = if s.len() > 0 && s.last() == 10 { p.drop_last() } else { p };
    q.map_values(|l: Seq<u8>| line_body(l))
}

/// The pieces of `s` between occurrences of `sep`.
pub fn split_bytes(s: &[u8], sep: u8) -> (r: Vec<Vec<u8>>)
    ensures
        r@.map_values(|v: Vec<u8>| v@) == split(s@, sep),
{
    let mut out: Vec<Vec<u8>> = Vec::new();
    let mut cur: Vec<u8> = Vec::new();
    let mut i: usize = 0;
    while i < s.len()
        invariant
            i <= s.len(),
            out@.map_values(|v: Vec<u8>| v@).push(cur@) == split(s@.take(i as int), sep),
        decreases s.len() - i,
    {
        let ghost prev = out@.map_values(|v: Vec<u8>| v@);
        let ghost prev_cur = cur@;
        assert(s@.take(i + 1).drop_last() =~= s@.take(i as int));
        if s[i] == sep {
            let done = cur;
            out.push(done);
            cur = Vec::new();
            assert(out@.map_values(|v: Vec<u8>| v@) =~= prev.push(prev_cur));
        } else {
            cur.push(s[i]);
            assert(out@.map_values(|v: Vec<u8>| v@) =~= prev);
            assert(prev.push(cur@) =~= prev.push(prev_cur).update(prev.len() as int, prev_cur.push(s[i as int])));
        }
        i += 1;
    }
    assert(s@.take(s.len() as int) =~= s@);
    out.push(cur);
    out
}

/// The lines of a text (see `text_lines`).
pub fn lines_of(s: &[u8]) -> (r: Vec<Vec<u8>>)
    ensures
        r@.map_values(|v: Vec<u8>| v@) == text_lines(s@),
{
    let mut pieces = split_bytes(s, 10);
    proof {
        lemma_split_nonempty(s@, 10);
    }
    if s.len() > 0 && s[s.len() - 1] == 10 {
        let ghost before = pieces@;
        pieces.pop();
        assert(pieces@ =~= before.drop_last());
        assert(pieces@.map_values(|v: Vec<u8>| v@) =~= before.map_values(|v: Vec<u8>| v@).drop_last());
    }
    let ghost q = pieces@.map_values(|v: Vec<u8>| v@);
    let mut out: Vec<Vec<u8>> = Vec::new();
    let mut i: usize = 0;
    while i < pieces.len()
        invariant
            i <= pieces.len(),
            q == pieces@.map_values(|v: Vec<u8>| v@),
            out@.map_values(|v: Vec<u8>| v@) =~= q.take(i as int).map_values(|l: Seq<u8>| line_body(l)),
        decreases pieces.len() - i,
    {
        let l = &pieces[i];
        let mut body: Vec<u8> = Vec::new();
        let keep = if l.len() > 0 && l[l.len() - 1] == 13 { l.len() - 1 } else { l.len() };
        let mut j: usize = 0;
        while j < keep
            invariant
                keep <= l.len(),
                j <= keep,
                body@ =~= l@.take(j as int),
            decreases keep - j,
        {
            body.push(l[j]);
            j += 1;
        }
        assert(body@ =~= line_body(q[i as int]));
        out.push(body);
        assert(q.take(i + 1).map_values(|l: Seq<u8>| line_body(l)) =~= q.take(i as int).map_values(
            |l: Seq<u8>| line_body(l),
        ).push(line_body(q[i as int])));
        i += 1;
    }
    assert(q.take(pieces.len() as int) =~= q);
    out
}

/// The value of `s` as a decimal numeral; None unless it is one and its
/// value fits in `u64`.
pub fn parse_numeral(s: &Vec<u8>) -> (r: Option<u64>)
    ensures
        r.is_some() <==> is_numeral(s@) && numeral_value(s@) <= u64::MAX,
        r.is_some() ==> r.unwrap() == numeral_value(s@),
{
    if s.len() == 0 {
        return None;
    }
    let mut v: u64 = 0;
    let mut i: usize = 0;
    while i < s.len()
        invariant
            i <= s.len(),
            forall|j: int| 0 <= j < i ==> 48 <= #[trigger] s@[j] <= 57,
            v == numeral_value(s@.take(i as int)),
        decreases s.len() - i,
    {
        assert(s@.take(i + 1).drop_last() =~= s@.take(i as int));
        let c = s[i];
        if c < 48 || c > 57 {
            assert(!is_numeral(s@)) by {
                assert(s@[i as int] == c);
            }
            return None;
        }
        let d = (c - 48) as u64;
        if v > (u64::MAX - d) / 10 {
            proof {
                lemma_numeral_prefix_bound(s@, i + 1);
            }
            return None;
        }
        v = v * 10 + d;
        i += 1;
    }
    assert(s@.take(s.len() as int) =~= s@);
    Some(v)
}

/// A numeral's value is at least that of any of its prefixes.
proof fn lemma_numeral_prefix_bound(s: Seq<u8>, k: int)
    requires
        0 <= k <= s.len(),
        forall|i: int| 0 <= i < k ==> 48 <= #[trigger] s[i] <= 57,
    ensures
        !(is_numeral(s) && numeral_value(s) <= u64::MAX) || numeral_value(s.take(k)) <= numeral_value(s),
    decreases s.len() - k,
{
    if is_numeral(s) && k < s.len() {
        lemma_numeral_prefix_bound(s, k + 1);
        assert(s.take(k + 1).drop_last() =~= s.take(k));
        lemma_numeral_nonneg(s.take(k));
    } else if k == s.len() {
        assert(s.take(k) =~= s);
    }
}

proof fn lemma_numeral_nonneg(s: Seq<u8>)
    requires
        forall|i: int| 0 <= i < s.len() ==> 48 <= #[trigger] s[i] <= 57,
    ensures
        numeral_value(s) >= 0,
    decreases s.len(),
{
    if s.len() > 0 {
        lemma_numeral_nonneg(s.drop_last());
    }
}

} // verus!
