//! The layout of an environment file: `define <alias> <path>` lines, a
//! `type <kind>` line (`const`, `cycle` or `switch_prob`), the regime's
//! lines and an `end` line, words separated by single spaces. A regime
//! line of `const` names an alias; one of the other kinds gives a duration
//! or switching probability, then an alias.
use vstd::prelude::*;
use crate::text::{lines_of, split, split_bytes, text_lines};

verus! {

/// The regime kind a `type` line names.
#[derive(PartialEq, Eq, Structural, Debug, Clone, Copy)]
pub enum RegimeKind {
    Constant,
    Cycle,
    SwitchProb,
}

/// Why an environment file was refused.
#[derive(PartialEq, Eq, Structural, Debug, Clone, Copy)]
pub enum EnvFileError {
    /// A `define` line without alias and path, or a `type` line without kind.
    ShortKeywordLine,
    /// No `type` line.
    MissingType,
    /// No `end` line after the last `type` line.
    MissingEnd,
    /// The `type` line names no known kind.
    UnknownKind,
    /// A regime line without the words its kind needs.
    ShortRegimeLine,
    /// A regime line names an alias that no `define` line defines.
    UndefinedAlias,
}

/// What an environment file says, one entry per environment in order: the
/// path of its fitness file, and the first word of its regime line (a
/// duration for `cycle`, a switching probability for `switch_prob`).
pub struct EnvLayout {
    pub kind: RegimeKind,
    pub files: Vec<Vec<u8>>,
    pub params: Vec<Vec<u8>>,
}

pub open spec fn kw_define() -> Seq<u8> {
    seq![100u8, 101, 102, 105, 110, 101]
}

pub open spec fn kw_type() -> Seq<u8> {
    seq![116u8, 121, 112, 101]
}

pub open spec fn kw_end() -> Seq<u8> {
    seq![101u8, 110, 100]
}

pub open spec fn kw_const() -> Seq<u8> {
    seq![99u8, 111, 110, 115, 116]
}

pub open spec fn kw_cycle() -> Seq<u8> {
    seq![99u8, 121, 99, 108, 101]
}

pub open spec fn kw_switch_prob() -> Seq<u8> {
    seq![115u8, 119, 105, 116, 99, 104, 95, 112, 114, 111, 98]
}

/// The words of a line.
pub open spec fn words(l: Seq<u8>) -> Seq<Seq<u8>> {
    split(l, 32)
}

/// Index of the last of the first `n` lines whose first word is `key`; -1
/// when there is none.
pub open spec fn last_with(lines: Seq<Seq<u8>>, key: Seq<u8>, n: int) -> int
    decreases n,
{
    if n <= 0 {
        -1
    } else if words(lines[n - 1])[0] == key {
        n - 1
    } else {
        last_with(lines, key, n - 1)
    }
}

/// Index of the last of the first `n` lines that defines `alias`; -1 when
/// there is none.
pub open spec fn last_define(lines: Seq<Seq<u8>>, alias: Seq<u8>, n: int) -> int
    decreases n,
{
    if n <= 0 {
        -1
    } else if words(lines[n - 1])[0] == kw_define() && words(lines[n - 1])[1] == alias {
        n - 1
    } else {
        last_define(lines, alias, n - 1)
    }
}

/// The kind a kind word names.
pub open spec fn kind_of(word: Seq<u8>) -> Option<RegimeKind> {
    if word == kw_const() {
        Some(RegimeKind::Constant)
    } else if word == kw_cycle() {
        Some(RegimeKind::Cycle)
    } else if word == kw_switch_prob() {
        Some(RegimeKind::SwitchProb)
    } else {
        None
    }
}

/// The alias a regime line names.
pub open spec fn line_alias(l: Seq<u8>, kind: RegimeKind) -> Seq<u8> {
    if kind == RegimeKind::Constant {
        words(l)[0]
    } else {
        words(l)[1]
    }
}

/// Whether a text is a well-formed environment file: keyword lines are
/// complete, the last `type` line names a kind and comes before the last
/// `end` line, and every line between them is a regime line naming an
/// alias that some `define` line defines.
pub open spec fn env_text_ok(lines: Seq<Seq<u8>>) -> bool {
    let n = lines.len() as int;
    let t = last_with(lines, kw_type(), n);
    let e = last_with(lines, kw_end(), n);
    &&& forall|i: int|
        0 <= i < n ==> {
            let w = #[trigger] words(lines[i]);
            &&& (w[0] == kw_define() ==> w.len() >= 3)
            &&& (w[0] == kw_type() ==> w.len() >= 2)
        }
    &&& 0 <= t < e
    &&& kind_of(words(lines[t])[1]).is_some()
    &&& forall|i: int|
        t < i < e ==> {
            let k = kind_of(words(lines[t])[1]).unwrap();
            &&& (k != RegimeKind::Constant ==> #[trigger] words(lines[i]).len() >= 2)
            &&& last_define(lines, line_alias(lines[i], k), n) >= 0
        }
}

/// Whether `l` is what the well-formed lines `lines` say: the kind of the
/// last `type` line and, for each line between it and the last `end`
/// line, the line's first word and the path its alias is last defined as.
pub open spec fn layout_of(lines: Seq<Seq<u8>>, l: EnvLayout) -> bool {
    let n = lines.len() as int;
    let t = last_with(lines, kw_type(), n);
    let e = last_with(lines, kw_end(), n);
    &&& Some(l.kind) == kind_of(words(lines[t])[1])
    &&& l.files.len() == e - t - 1
    &&& l.params.len() == e - t - 1
    &&& forall|k: int|
        0 <= k < e - t - 1 ==> {
            let line = lines[t + 1 + k];
            &&& #[trigger] l.params[k]@ == words(line)[0]
            &&& l.files[k]@ == words(lines[last_define(lines, line_alias(line, l.kind), n)])[2]
        }
}

/// Whether `a` and `b` hold the same bytes.
pub fn same_bytes(a: &Vec<u8>, b: &Vec<u8>) -> (r: bool)
    ensures
        r == (a@ == b@),
{
    if a.len() != b.len() {
        return false;
    }
    let mut i: usize = 0;
    while i < a.len()
        invariant
            a.len() == b.len(),
            i <= a.len(),
            forall|j: int| 0 <= j < i ==> a[j] == b[j],
        decreases a.len() - i,
    {
        if a[i] != b[i] {
            return false;
        }
        i += 1;
    }
    assert(a@ =~= b@);
    true
}

/// The words of every line, as nested views.
pub open spec fn word_view(aw: Seq<Vec<Vec<u8>>>, i: int) -> Seq<Seq<u8>> {
    aw[i]@.map_values(|v: Vec<u8>| v@)
}

proof fn lemma_word_view(aw: Seq<Vec<Vec<u8>>>, j: int)
    requires
        0 <= j < aw.len(),
    ensures
        aw[j]@.len() == word_view(aw, j).len(),
        forall|k: int| 0 <= k < aw[j]@.len() ==> #[trigger] aw[j]@[k]@ == word_view(aw, j)[k],
{
}

proof fn lemma_last_with(lines: Seq<Seq<u8>>, key: Seq<u8>, n: int)
    requires
        0 <= n <= lines.len(),
    ensures
        -1 <= last_with(lines, key, n) < n,
        last_with(lines, key, n) >= 0 ==> words(lines[last_with(lines, key, n)])[0] == key,
    decreases n,
{
    if n > 0 {
        lemma_last_with(lines, key, n - 1);
    }
}

proof fn lemma_last_define(lines: Seq<Seq<u8>>, alias: Seq<u8>, n: int)
    requires
        0 <= n <= lines.len(),
    ensures
        -1 <= last_define(lines, alias, n) < n,
        last_define(lines, alias, n) >= 0 ==> words(lines[last_define(lines, alias, n)])[0] == kw_define(),
    decreases n,
{
    if n > 0 {
        lemma_last_define(lines, alias, n - 1);
    }
}

/// Reads the layout of an environment file from its text.
pub fn parse_env(text: &[u8]) -> (r: Result<EnvLayout, EnvFileError>)
    ensures
        r is Ok <==> env_text_ok(text_lines(text@)),
        r is Ok ==> layout_of(text_lines(text@), r->Ok_0),
{
    let kd: Vec<u8> = vec![100u8, 101, 102, 105, 110, 101];
    let kt: Vec<u8> = vec![116u8, 121, 112, 101];
    let ke: Vec<u8> = vec![101u8, 110, 100];
    let kc: Vec<u8> = vec![99u8, 111, 110, 115, 116];
    let ky: Vec<u8> = vec![99u8, 121, 99, 108, 101];
    let ks: Vec<u8> = vec![115u8, 119, 105, 116, 99, 104, 95, 112, 114, 111, 98];
    assert(kd@ =~= kw_define());
    assert(kt@ =~= kw_type());
    assert(ke@ =~= kw_end());
    assert(kc@ =~= kw_const());
    assert(ky@ =~= kw_cycle());
    assert(ks@ =~= kw_switch_prob());
    let lines = lines_of(text);
    let ghost ls = text_lines(text@);
    let n = lines.len();
    assert(n == ls.len());
    let mut aw: Vec<Vec<Vec<u8>>> = Vec::new();
    let mut t: Option<usize> = None;
    let mut e: Option<usize> = None;
    let mut i: usize = 0;
    while i < n
        invariant
            ls == text_lines(text@),
            n == lines.len(),
            n == ls.len(),
            lines@.map_values(|v: Vec<u8>| v@) == ls,
            kd@ == kw_define(),
            kt@ == kw_type(),
            ke@ == kw_end(),
            i <= n,
            aw.len() == i,
            forall|j: int| 0 <= j < i ==> #[trigger] word_view(aw@, j) == words(ls[j]),
            forall|j: int|
                0 <= j < i ==> {
                    let w = #[trigger] words(ls[j]);
                    &&& (w[0] == kw_define() ==> w.len() >= 3)
                    &&& (w[0] == kw_type() ==> w.len() >= 2)
                },
            t.is_some() ==> t.unwrap() < i,
            (match t { Some(v) => v as int, None => -1 }) == last_with(ls, kw_type(), i as int),
            (match e { Some(v) => v as int, None => -1 }) == last_with(ls, kw_end(), i as int),
        decreases n - i,
    {
        assert(lines@[i as int]@ == ls[i as int]);
        let ws = split_bytes(lines[i].as_slice(), 32);
        proof {
            crate::text::lemma_split_nonempty(ls[i as int], 32);
        }
        let ghost wv = ws@.map_values(|v: Vec<u8>| v@);
        assert(wv == words(ls[i as int]));
        assert(wv[0] == ws@[0]@);
        assert(wv.len() == ws@.len());
        if same_bytes(&ws[0], &kd) && ws.len() < 3 {
            assert(!env_text_ok(ls)) by {
                if env_text_ok(ls) {
                    assert(words(ls[i as int])[0] == kw_define());
                }
            }
            return Err(EnvFileError::ShortKeywordLine);
        }
        if same_bytes(&ws[0], &kt) {
            if ws.len() < 2 {
                assert(!env_text_ok(ls)) by {
                    if env_text_ok(ls) {
                        assert(words(ls[i as int])[0] == kw_type());
                    }
                }
                return Err(EnvFileError::ShortKeywordLine);
            }
            t = Some(i);
        }
        if same_bytes(&ws[0], &ke) {
            e = Some(i);
        }
        let ghost old_aw = aw@;
        aw.push(ws);
        assert(word_view(aw@, i as int) == words(ls[i as int]));
        assert forall|j: int| 0 <= j < i + 1 implies #[trigger] word_view(aw@, j) == words(ls[j]) by {
            if j < i {
                assert(aw@[j] == old_aw[j]);
                assert(word_view(old_aw, j) == words(ls[j]));
            }
        }
        i += 1;
    }
    let t = match t {
        Some(v) => v,
        None => {
            return Err(EnvFileError::MissingType);
        },
    };
    let e = match e {
        Some(v) => v,
        None => {
            return Err(EnvFileError::MissingEnd);
        },
    };
    if e <= t {
        return Err(EnvFileError::MissingEnd);
    }
    assert(word_view(aw@, t as int) == words(ls[t as int]));
    proof {
        lemma_last_with(ls, kw_type(), n as int);
        lemma_last_with(ls, kw_end(), n as int);
        lemma_word_view(aw@, t as int);
    }
    let kw = &aw[t][1];
    assert(kw@ == words(ls[t as int])[1]);
    let kind = if same_bytes(kw, &kc) {
        RegimeKind::Constant
    } else if same_bytes(kw, &ky) {
        RegimeKind::Cycle
    } else if same_bytes(kw, &ks) {
        RegimeKind::SwitchProb
    } else {
        return Err(EnvFileError::UnknownKind);
    };
    assert(Some(kind) == kind_of(words(ls[t as int])[1]));
    let mut files: Vec<Vec<u8>> = Vec::new();
    let mut params: Vec<Vec<u8>> = Vec::new();
    let mut b: usize = t + 1;
    while b < e
        invariant
            ls == text_lines(text@),
            t as int == last_with(ls, kw_type(), n as int),
            e as int == last_with(ls, kw_end(), n as int),
            n == ls.len(),
            aw.len() == n,
            kd@ == kw_define(),
            forall|j: int| 0 <= j < n ==> #[trigger] word_view(aw@, j) == words(ls[j]),
            forall|j: int|
                0 <= j < n ==> {
                    let w = #[trigger] words(ls[j]);
                    &&& (w[0] == kw_define() ==> w.len() >= 3)
                    &&& (w[0] == kw_type() ==> w.len() >= 2)
                },
            t < b <= e,
            e < n,
            Some(kind) == kind_of(words(ls[t as int])[1]),
            files.len() == b - t - 1,
            params.len() == b - t - 1,
            forall|i: int|
                t < i < b ==> {
                    &&& (kind != RegimeKind::Constant ==> #[trigger] words(ls[i]).len() >= 2)
                    &&& last_define(ls, line_alias(ls[i], kind), n as int) >= 0
                },
            forall|k: int|
                0 <= k < b - t - 1 ==> {
                    let line = ls[t + 1 + k];
                    &&& #[trigger] params[k]@ == words(line)[0]
                    &&& files[k]@ == words(ls[last_define(ls, line_alias(line, kind), n as int)])[2]
                },
        decreases e - b,
    {
        assert(word_view(aw@, b as int) == words(ls[b as int]));
        proof {
            lemma_word_view(aw@, b as int);
            crate::text::lemma_split_nonempty(ls[b as int], 32);
        }
        let ws = &aw[b];
        if kind != RegimeKind::Constant && ws.len() < 2 {
            assert(!env_text_ok(ls)) by {
                if env_text_ok(ls) {
                    assert(t < b < e);
                    assert(words(ls[b as int]).len() >= 2);
                }
            }
            return Err(EnvFileError::ShortRegimeLine);
        }
        let alias = if kind == RegimeKind::Constant { &ws[0] } else { &ws[1] };
        assert(alias@ == line_alias(ls[b as int], kind));
        let mut j: usize = n;
        let mut found: Option<usize> = None;
        while j > 0 && found.is_none()
            invariant
                ls == text_lines(text@),
                t as int == last_with(ls, kw_type(), n as int),
                e as int == last_with(ls, kw_end(), n as int),
                t < b < e,
                e < n,
                Some(kind) == kind_of(words(ls[t as int])[1]),
                alias@ == line_alias(ls[b as int], kind),
                n == ls.len(),
                aw.len() == n,
                kd@ == kw_define(),
                forall|q: int| 0 <= q < n ==> #[trigger] word_view(aw@, q) == words(ls[q]),
                forall|q: int|
                    0 <= q < n ==> {
                        let w = #[trigger] words(ls[q]);
                        &&& (w[0] == kw_define() ==> w.len() >= 3)
                        &&& (w[0] == kw_type() ==> w.len() >= 2)
                    },
                j <= n,
                found.is_none() ==> last_define(ls, alias@, n as int) == last_define(ls, alias@, j as int),
                found.is_some() ==> found.unwrap() < n && found.unwrap() as int == last_define(ls, alias@, n as int),
            decreases j + if found.is_none() { 1int } else { 0 },
        {
            assert(word_view(aw@, j - 1) == words(ls[j - 1]));
            let wj = &aw[j - 1];
            proof {
                crate::text::lemma_split_nonempty(ls[j - 1], 32);
                lemma_word_view(aw@, j - 1);
            }
            if same_bytes(&wj[0], &kd) && same_bytes(&wj[1], alias) {
                assert(wj@[0]@ == words(ls[j - 1])[0]);
                assert(wj@[1]@ == words(ls[j - 1])[1]);
                assert(last_define(ls, alias@, j as int) == j - 1);
                found = Some(j - 1);
            } else {
                j -= 1;
            }
        }
        let d = match found {
            Some(d) => d,
            None => {
                assert(last_define(ls, alias@, 0) == -1);
                assert(!env_text_ok(ls)) by {
                    if env_text_ok(ls) {
                        assert(t < b < e);
                        assert(words(ls[b as int]).len() >= 1);
                        assert(last_define(ls, line_alias(ls[b as int], kind), n as int) >= 0);
                    }
                }
                return Err(EnvFileError::UndefinedAlias);
            },
        };
        assert(word_view(aw@, d as int) == words(ls[d as int]));
        proof {
            lemma_last_define(ls, alias@, n as int);
            lemma_word_view(aw@, d as int);
        }
        let path = aw[d][2].clone();
        let param = ws[0].clone();
        assert(path@ =~= words(ls[d as int])[2]);
        assert(param@ =~= words(ls[b as int])[0]);
        files.push(path);
        params.push(param);
        b += 1;
    }
    assert(b == e);
    assert(env_text_ok(ls));
    assert forall|k: int| 0 <= k < e - t - 1 implies {
        let line = ls[t + 1 + k];
        &&& #[trigger] params[k]@ == words(line)[0]
        &&& files[k]@ == words(ls[last_define(ls, line_alias(line, kind), n as int)])[2]
    } by {
        assert(0 <= k < b - t - 1);
    }
    let ghost ps = params@;
    let ghost fs = files@;
    let r = EnvLayout { kind, files, params };
    assert(r.params@ == ps);
    assert(r.files@ == fs);
    assert(Some(r.kind) == kind_of(words(ls[t as int])[1]));
    assert(r.files.len() == e - t - 1);
    assert forall|k: int| 0 <= k < e - t - 1 implies {
        let line = ls[t + 1 + k];
        &&& #[trigger] r.params[k]@ == words(line)[0]
        &&& r.files[k]@ == words(ls[last_define(ls, line_alias(line, r.kind), n as int)])[2]
    } by {
        let line = ls[t + 1 + k];
        assert(r.params@[k] == ps[k]);
        assert(r.files@[k] == fs[k]);
        assert(r.kind == kind);
        assert(ps[k]@ == words(line)[0]);
        assert(r.params[k]@ == words(line)[0]);
        assert(fs[k]@ == words(ls[last_define(ls, line_alias(line, kind), n as int)])[2]);
    }
    assert(layout_of(ls, r));
    Ok(r)
}

} // verus!
