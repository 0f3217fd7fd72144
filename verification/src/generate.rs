use crate::errors::TaxoError;
use crate::strutil::char_is_numeric;
use crate::strutil::unicode_numeric;
use vstd::prelude::*;

verus! {

/// Mixed user input, partitioned by identifier shape: rank-prefixed labels,
/// all-numeric taxids, and the captured numeric suffixes of accession ids.
#[derive(Debug)]
pub struct Classified {
    pub labels: Vec<String>,
    pub taxids: Vec<String>,
    pub accessions: Vec<String>,
}

pub open spec fn is_ascii_alpha(c: char) -> bool {
    ('A' <= c && c <= 'Z') || ('a' <= c && c <= 'z')
}

pub open spec fn is_ascii_digit(c: char) -> bool {
    '0' <= c && c <= '9'
}

/// A label token starts with one of the seven rank-code prefixes
/// `c__ d__ f__ g__ o__ p__ s__`.
pub open spec fn is_label_token(s: Seq<char>) -> bool {
    s.len() >= 3 && s[1] == '_' && s[2] == '_' && (s[0] == 'c' || s[0] == 'd' || s[0] == 'f'
        || s[0] == 'g' || s[0] == 'o' || s[0] == 'p' || s[0] == 's')
}

/// A taxid token consists of numeric characters only (vacuously true of an
/// empty token).
pub open spec fn is_taxid_token(s: Seq<char>) -> bool {
    forall|i: int| 0 <= i < s.len() ==> unicode_numeric(#[trigger] s[i])
}

/// The end of the digit run that starts at `i`: the first position at or
/// after `i` holding no ASCII digit, or the end of the text.
pub open spec fn digit_run_end(s: Seq<char>, i: int) -> int
    recommends
        0 <= i <= s.len(),
    decreases s.len() - i,
{
    if i < 0 || i >= s.len() {
        i
    } else if !is_ascii_digit(s[i]) {
        i
    } else {
        digit_run_end(s, i + 1)
    }
}

/// `digits . digits` starting at `a`, both runs taken maximally.
pub open spec fn num_match(s: Seq<char>, a: int) -> bool {
    let e1 = digit_run_end(s, a);
    e1 > a && e1 < s.len() && s[e1] == '.' && digit_run_end(s, e1 + 1) > e1 + 1
}

/// The matched `digits . digits` text starting at `a`.
pub open spec fn num_capture(s: Seq<char>, a: int) -> Seq<char> {
    let e1 = digit_run_end(s, a);
    s.subrange(a, digit_run_end(s, e1 + 1))
}

/// Three letters, an underscore, then `digits . digits`, starting at `p`.
pub open spec fn body_match(s: Seq<char>, p: int) -> bool {
    &&& 0 <= p
    &&& p + 4 <= s.len()
    &&& is_ascii_alpha(s[p])
    &&& is_ascii_alpha(s[p + 1])
    &&& is_ascii_alpha(s[p + 2])
    &&& s[p + 3] == '_'
    &&& num_match(s, p + 4)
}

/// Two letters and an underscore, then a body, starting at `p`.
pub open spec fn pre_match(s: Seq<char>, p: int) -> bool {
    &&& 0 <= p
    &&& p + 3 <= s.len()
    &&& is_ascii_alpha(s[p])
    &&& is_ascii_alpha(s[p + 1])
    &&& s[p + 2] == '_'
    &&& body_match(s, p + 3)
}

/// An accession-id match may start at `p`, with or without the optional
/// two-letter prefix.
pub open spec fn match_at(s: Seq<char>, p: int) -> bool {
    pre_match(s, p) || body_match(s, p)
}

/// The value an accession match starting at `p` captures: its
/// `digits . digits` suffix. The prefixed reading is preferred where both
/// apply.
pub open spec fn capture_at(s: Seq<char>, p: int) -> Seq<char> {
    if pre_match(s, p) {
        num_capture(s, p + 7)
    } else {
        num_capture(s, p + 4)
    }
}

/// The least position at or after `p` where an accession match starts, or
/// -1 when there is none.
pub open spec fn match_pos_from(s: Seq<char>, p: int) -> int
    recommends
        0 <= p <= s.len(),
    decreases s.len() - p,
{
    if p < 0 || p >= s.len() {
        -1
    } else if match_at(s, p) {
        p
    } else {
        match_pos_from(s, p + 1)
    }
}

/// What the accession pattern captures on this token: the numeric suffix of
/// the leftmost match, or nothing when the pattern matches nowhere.
pub open spec fn accession_capture(s: Seq<char>) -> Option<Seq<char>> {
    let p = match_pos_from(s, 0);
    if p < 0 {
        None
    } else {
        Some(capture_at(s, p))
    }
}

/// Whether a token has one of the three recognized identifier shapes.
pub open spec fn token_ok(s: Seq<char>) -> bool {
    is_label_token(s) || is_taxid_token(s) || accession_capture(s) is Some
}

/// The first token with no recognized shape, or -1 when all are fine.
pub open spec fn first_bad(tokens: Seq<Seq<char>>, i: int) -> int
    decreases i,
{
    if i <= 0 {
        -1
    } else if first_bad(tokens, i - 1) >= 0 {
        first_bad(tokens, i - 1)
    } else if !token_ok(tokens[i - 1]) {
        i - 1
    } else {
        -1
    }
}

/// The label tokens among the first `i`, in order.
pub open spec fn labels_of(tokens: Seq<Seq<char>>, i: int) -> Seq<Seq<char>>
    decreases i,
{
    if i <= 0 {
        Seq::empty()
    } else {
        let rest = labels_of(tokens, i - 1);
        if is_label_token(tokens[i - 1]) {
            rest.push(tokens[i - 1])
        } else {
            rest
        }
    }
}

/// The taxid tokens among the first `i` (that are not labels), in order.
pub open spec fn taxids_of(tokens: Seq<Seq<char>>, i: int) -> Seq<Seq<char>>
    decreases i,
{
    if i <= 0 {
        Seq::empty()
    } else {
        let rest = taxids_of(tokens, i - 1);
        if !is_label_token(tokens[i - 1]) && is_taxid_token(tokens[i - 1]) {
            rest.push(tokens[i - 1])
        } else {
            rest
        }
    }
}

/// The captured accession values among the first `i` tokens that are
/// neither labels nor taxids, in order.
pub open spec fn accessions_of(tokens: Seq<Seq<char>>, i: int) -> Seq<Seq<char>>
    decreases i,
{
    if i <= 0 {
        Seq::empty()
    } else {
        let rest = accessions_of(tokens, i - 1);
        let tk = tokens[i - 1];
        if !is_label_token(tk) && !is_taxid_token(tk) && accession_capture(tk) is Some {
            rest.push(accession_capture(tk)->0)
        } else {
            rest
        }
    }
}

/// Whether every character of the token is numeric.
fn all_numeric(s: &String) -> (r: bool)
    ensures
        r == is_taxid_token(s@),
{
    let len = s.as_str().unicode_len();
    let mut i: usize = 0;
    while i < len
        invariant
            len == s@.len(),
            i <= len,
            forall|k: int| 0 <= k < i ==> unicode_numeric(#[trigger] s@[k]),
        decreases len - i,
    {
        let c = s.as_str().get_char(i);
        if !char_is_numeric(c) {
            return false;
        }
        i += 1;
    }
    true
}

fn is_alpha_exec(c: char) -> (r: bool)
    ensures
        r == is_ascii_alpha(c),
{
    ('A' <= c && c <= 'Z') || ('a' <= c && c <= 'z')
}

fn is_digit_exec(c: char) -> (r: bool)
    ensures
        r == is_ascii_digit(c),
{
    '0' <= c && c <= '9'
}

/// The end of the digit run of `s` that starts at `i`.
fn digit_run_end_exec(s: &String, i: usize) -> (r: usize)
    requires
        i <= s@.len(),
    ensures
        r == digit_run_end(s@, i as int),
        i <= r <= s@.len(),
{
    let len = s.as_str().unicode_len();
    let mut j = i;
    while j < len
        invariant
            len == s@.len(),
            i <= j <= len,
            digit_run_end(s@, i as int) == digit_run_end(s@, j as int),
        decreases len - j,
    {
        let c = s.as_str().get_char(j);
        if !is_digit_exec(c) {
            return j;
        }
        j += 1;
    }
    j
}

/// Whether `digits . digits` starts at `a`, and where its capture ends.
fn num_match_exec(s: &String, a: usize) -> (r: Option<usize>)
    requires
        a <= s@.len(),
    ensures
        match r {
            Some(e) => num_match(s@, a as int) && e as int == digit_run_end(
                s@,
                digit_run_end(s@, a as int) + 1,
            ) && a <= e <= s@.len(),
            None => !num_match(s@, a as int),
        },
{
    let len = s.as_str().unicode_len();
    let e1 = digit_run_end_exec(s, a);
    if e1 == a || e1 >= len {
        return None;
    }
    if s.as_str().get_char(e1) != '.' {
        return None;
    }
    let e2 = digit_run_end_exec(s, e1 + 1);
    if e2 == e1 + 1 {
        return None;
    }
    Some(e2)
}

/// Whether an accession match starts at `p`, and the capture bounds
/// (start, end) if so.
fn match_at_exec(s: &String, p: usize) -> (r: Option<(usize, usize)>)
    requires
        p < s@.len(),
    ensures
        match r {
            Some(be) => match_at(s@, p as int) && be.0 as int <= be.1 as int <= s@.len()
                && capture_at(s@, p as int) == s@.subrange(be.0 as int, be.1 as int),
            None => !match_at(s@, p as int),
        },
{
    let len = s.as_str().unicode_len();
    // the prefixed reading first, as the pattern prefers it; it can never
    // coincide with the plain reading, whose third position is a letter
    // where the prefix demands an underscore
    if len - p >= 3 {
        let ok_pre = is_alpha_exec(s.as_str().get_char(p)) && is_alpha_exec(
            s.as_str().get_char(p + 1),
        ) && s.as_str().get_char(p + 2) == '_';
        if ok_pre {
            if let Some(be) = body_match_exec(s, p + 3) {
                return Some(be);
            }
        }
    }
    if let Some(be) = body_match_exec(s, p) {
        proof {
            assert(!pre_match(s@, p as int));
        }
        return Some(be);
    }
    None
}

/// Whether a body (3 letters, `_`, `digits . digits`) starts at `p`, and
/// the capture bounds if so.
fn body_match_exec(s: &String, p: usize) -> (r: Option<(usize, usize)>)
    requires
        p <= s@.len(),
    ensures
        match r {
            Some(be) => body_match(s@, p as int) && be.0 == p + 4 && p + 4 <= be.1 <= s@.len()
                && num_capture(s@, p + 4) == s@.subrange(be.0 as int, be.1 as int),
            None => !body_match(s@, p as int),
        },
{
    let len = s.as_str().unicode_len();
    if len - p < 4 {
        return None;
    }
    if !(is_alpha_exec(s.as_str().get_char(p)) && is_alpha_exec(s.as_str().get_char(p + 1))
        && is_alpha_exec(s.as_str().get_char(p + 2)) && s.as_str().get_char(p + 3) == '_') {
        return None;
    }
    match num_match_exec(s, p + 4) {
        Some(e) => Some((p + 4, e)),
        None => None,
    }
}

/// The captured accession value of this token, if the pattern matches
/// anywhere in it.
fn accession_capture_exec(s: &String) -> (r: Option<String>)
    ensures
        match r {
            Some(cap) => accession_capture(s@) == Some(cap@),
            None => accession_capture(s@) is None,
        },
{
    let len = s.as_str().unicode_len();
    let mut p: usize = 0;
    while p < len
        invariant
            len == s@.len(),
            p <= len,
            match_pos_from(s@, 0) == match_pos_from(s@, p as int),
        decreases len - p,
    {
        match match_at_exec(s, p) {
            Some((b, e)) => {
                let cap = s.as_str().substring_char(b, e);
                let owned = String::from_str(cap);
                proof {
                    assert(match_pos_from(s@, p as int) == p as int);
                }
                return Some(owned);
            },
            None => {},
        }
        p += 1;
    }
    None
}

/// Partitions the tokens by identifier shape. The whole call fails on the
/// first token that matches no shape, naming that token.
pub fn classify(tokens: &Vec<String>) -> (r: Result<Classified, TaxoError>)
    ensures
        match r {
            Ok(c) => {
                let tv = tokens.deep_view();
                &&& first_bad(tv, tv.len() as int) == -1
                &&& c.labels.deep_view() == labels_of(tv, tv.len() as int)
                &&& c.taxids.deep_view() == taxids_of(tv, tv.len() as int)
                &&& c.accessions.deep_view() == accessions_of(tv, tv.len() as int)
            },
            Err(e) => {
                let tv = tokens.deep_view();
                &&& first_bad(tv, tv.len() as int) >= 0
                &&& e matches TaxoError::MalformedInput(tok) && tok@ == tv[first_bad(
                    tv,
                    tv.len() as int,
                )]
            },
        },
{
    let ghost tv = tokens.deep_view();
    let mut labels: Vec<String> = Vec::new();
    let mut taxids: Vec<String> = Vec::new();
    let mut accessions: Vec<String> = Vec::new();
    let mut it: usize = 0;
    while it < tokens.len()
        invariant
            tv == tokens.deep_view(),
            tv.len() == tokens.len(),
            it <= tokens.len(),
            first_bad(tv, it as int) == -1,
            labels.deep_view() == labels_of(tv, it as int),
            taxids.deep_view() == taxids_of(tv, it as int),
            accessions.deep_view() == accessions_of(tv, it as int),
        decreases tokens.len() - it,
    {
        let tk = &tokens[it];
        let ghost pre_l = labels.deep_view();
        let ghost pre_t = taxids.deep_view();
        let ghost pre_a = accessions.deep_view();
        proof {
            assert(tk@ == tv[it as int]);
        }
        let is_label = tk.as_str().unicode_len() >= 3 && tk.as_str().get_char(1) == '_'
            && tk.as_str().get_char(2) == '_' && {
            let c0 = tk.as_str().get_char(0);
            c0 == 'c' || c0 == 'd' || c0 == 'f' || c0 == 'g' || c0 == 'o' || c0 == 'p' || c0 == 's'
        };
        if is_label {
            labels.push(tk.clone());
            proof {
                assert(labels.deep_view() =~= pre_l.push(tv[it as int]));
            }
        } else if all_numeric(tk) {
            taxids.push(tk.clone());
            proof {
                assert(taxids.deep_view() =~= pre_t.push(tv[it as int]));
            }
        } else {
            match accession_capture_exec(tk) {
                Some(cap) => {
                    accessions.push(cap);
                    proof {
                        assert(accessions.deep_view() =~= pre_a.push(
                            accession_capture(tv[it as int])->0,
                        ));
                    }
                },
                None => {
                    proof {
                        assert(!token_ok(tv[it as int]));
                        assert(first_bad(tv, it + 1) == it as int);
                        lemma_first_bad_frozen(tv, it + 1, tv.len() as int);
                    }
                    return Err(TaxoError::MalformedInput(tk.clone()));
                },
            }
        }
        it += 1;
    }
    Ok(Classified { labels, taxids, accessions })
}

/// Once a bad token is found, scanning further does not change it.
proof fn lemma_first_bad_frozen(tokens: Seq<Seq<char>>, i: int, j: int)
    requires
        0 < i <= j,
        first_bad(tokens, i) >= 0,
    ensures
        first_bad(tokens, j) == first_bad(tokens, i),
    decreases j - i,
{
    if j > i {
        lemma_first_bad_frozen(tokens, i, j - 1);
    }
}

/// The first components of key/value rows, as text.
pub open spec fn row_keys(rows: Seq<(String, String)>) -> Seq<Seq<char>> {
    Seq::new(rows.len(), |i: int| rows[i].0@)
}

/// The second components of key/value rows, as text.
pub open spec fn row_values(rows: Seq<(String, String)>) -> Seq<Seq<char>> {
    Seq::new(rows.len(), |i: int| rows[i].1@)
}

/// The requested items among the first `i` that the returned batch does
/// not hold, in request order.
pub open spec fn missing_below(req: Seq<Seq<char>>, got: Seq<Seq<char>>, i: int) -> Seq<Seq<char>>
    decreases i,
{
    if i <= 0 {
        Seq::empty()
    } else {
        let rest = missing_below(req, got, i - 1);
        if !got.contains(req[i - 1]) {
            rest.push(req[i - 1])
        } else {
            rest
        }
    }
}

/// The requested items the returned batch does not hold, in request order.
pub open spec fn missing_of(req: Seq<Seq<char>>, got: Seq<Seq<char>>) -> Seq<Seq<char>> {
    missing_below(req, got, req.len() as int)
}

/// The combined shortfall report over the three batches: for each batch
/// whose row count differs from its request count, the requested items its
/// rows do not hold.
pub open spec fn resolve_not_found(
    labels: Seq<Seq<char>>,
    lgot: Seq<Seq<char>>,
    taxids: Seq<Seq<char>>,
    tkeys: Seq<Seq<char>>,
    accs: Seq<Seq<char>>,
    akeys: Seq<Seq<char>>,
) -> Seq<Seq<char>> {
    (if lgot.len() != labels.len() {
        missing_of(labels, lgot)
    } else {
        Seq::empty()
    }) + (if tkeys.len() != taxids.len() {
        missing_of(taxids, tkeys)
    } else {
        Seq::empty()
    }) + (if akeys.len() != accs.len() {
        missing_of(accs, akeys)
    } else {
        Seq::empty()
    })
}

/// What a fully successful resolution returns: the labels unchanged, then
/// the value column of each full batch, in batch order.
pub open spec fn resolve_results(
    labels: Seq<Seq<char>>,
    lgot: Seq<Seq<char>>,
    taxids: Seq<Seq<char>>,
    tkeys: Seq<Seq<char>>,
    tvals: Seq<Seq<char>>,
    accs: Seq<Seq<char>>,
    akeys: Seq<Seq<char>>,
    avals: Seq<Seq<char>>,
) -> Seq<Seq<char>> {
    (if lgot.len() == labels.len() {
        labels
    } else {
        Seq::empty()
    }) + (if tkeys.len() == taxids.len() {
        tvals
    } else {
        Seq::empty()
    }) + (if akeys.len() == accs.len() {
        avals
    } else {
        Seq::empty()
    })
}

/// Whether some row's key equals `x`, compared as text.
fn contains_key(rows: &Vec<(String, String)>, x: &String) -> (r: bool)
    ensures
        r == row_keys(rows@).contains(x@),
{
    let mut i: usize = 0;
    while i < rows.len()
        invariant
            i <= rows.len(),
            forall|k: int| 0 <= k < i ==> row_keys(rows@)[k] != x@,
        decreases rows.len() - i,
    {
        if rows[i].0 == *x {
            assert(row_keys(rows@)[i as int] == x@);
            return true;
        }
        i += 1;
    }
    false
}

/// Combines the three batch answers. Each batch whose row count differs
/// from its request count contributes its missing items to one combined
/// `NotFound` report; only when all three batches are full does the call
/// succeed, with the labels passed through unchanged and each taxid or
/// accession row contributing its associated value.
pub fn resolve(
    labels: &Vec<String>,
    label_rows: &Vec<String>,
    taxids: &Vec<String>,
    taxid_rows: &Vec<(String, String)>,
    accessions: &Vec<String>,
    accession_rows: &Vec<(String, String)>,
) -> (r: Result<Vec<String>, TaxoError>)
    ensures
        ({
            let nf = resolve_not_found(
                labels.deep_view(),
                label_rows.deep_view(),
                taxids.deep_view(),
                row_keys(taxid_rows@),
                accessions.deep_view(),
                row_keys(accession_rows@),
            );
            match r {
                Ok(res) => nf.len() == 0 && res.deep_view() == resolve_results(
                    labels.deep_view(),
                    label_rows.deep_view(),
                    taxids.deep_view(),
                    row_keys(taxid_rows@),
                    row_values(taxid_rows@),
                    accessions.deep_view(),
                    row_keys(accession_rows@),
                    row_values(accession_rows@),
                ),
                Err(e) => nf.len() > 0 && (e matches TaxoError::NotFound(v) && v.deep_view()
                    == nf),
            }
        }),
{
    let ghost lv = labels.deep_view();
    let ghost lgot = label_rows.deep_view();
    let ghost tv = taxids.deep_view();
    let ghost tkeys = row_keys(taxid_rows@);
    let ghost tvals = row_values(taxid_rows@);
    let ghost av = accessions.deep_view();
    let ghost akeys = row_keys(accession_rows@);
    let ghost avals = row_values(accession_rows@);
    let mut not_found: Vec<String> = Vec::new();
    let mut results: Vec<String> = Vec::new();
    // label batch
    if label_rows.len() != labels.len() {
        let mut k: usize = 0;
        while k < labels.len()
            invariant
                lv == labels.deep_view(),
                lgot == label_rows.deep_view(),
                lv.len() == labels.len(),
                k <= labels.len(),
                not_found.deep_view() == missing_below(lv, lgot, k as int),
                results.deep_view() == Seq::<Seq<char>>::empty(),
            decreases labels.len() - k,
        {
            let ghost pre = not_found.deep_view();
            if !crate::strutil::contains_string(label_rows, &labels[k]) {
                not_found.push(labels[k].clone());
                proof {
                    assert(not_found.deep_view() =~= pre.push(lv[k as int]));
                }
            }
            k += 1;
        }
    } else {
        let mut k: usize = 0;
        while k < labels.len()
            invariant
                lv == labels.deep_view(),
                lv.len() == labels.len(),
                k <= labels.len(),
                not_found.deep_view() == Seq::<Seq<char>>::empty(),
                results.deep_view() == lv.take(k as int),
            decreases labels.len() - k,
        {
            let ghost pre = results.deep_view();
            results.push(labels[k].clone());
            proof {
                assert(results.deep_view() =~= pre.push(lv[k as int]));
                assert(lv.take(k + 1) =~= lv.take(k as int).push(lv[k as int]));
            }
            k += 1;
        }
    }
    let ghost nf1 = not_found.deep_view();
    let ghost res1 = results.deep_view();
    // taxid batch
    if taxid_rows.len() != taxids.len() {
        let mut k: usize = 0;
        while k < taxids.len()
            invariant
                tv == taxids.deep_view(),
                tkeys == row_keys(taxid_rows@),
                tv.len() == taxids.len(),
                k <= taxids.len(),
                not_found.deep_view() == nf1 + missing_below(tv, tkeys, k as int),
                results.deep_view() == res1,
            decreases taxids.len() - k,
        {
            let ghost pre = not_found.deep_view();
            if !contains_key(taxid_rows, &taxids[k]) {
                not_found.push(taxids[k].clone());
                proof {
                    assert(not_found.deep_view() =~= pre.push(tv[k as int]));
                    assert(nf1 + missing_below(tv, tkeys, k as int).push(tv[k as int]) =~= (nf1
                        + missing_below(tv, tkeys, k as int)).push(tv[k as int]));
                }
            }
            k += 1;
        }
    } else {
        let mut k: usize = 0;
        while k < taxid_rows.len()
            invariant
                tvals == row_values(taxid_rows@),
                k <= taxid_rows.len(),
                tvals.len() == taxid_rows.len(),
                not_found.deep_view() == nf1,
                results.deep_view() == res1 + tvals.take(k as int),
            decreases taxid_rows.len() - k,
        {
            let ghost pre = results.deep_view();
            results.push(taxid_rows[k].1.clone());
            proof {
                assert(results.deep_view() =~= pre.push(tvals[k as int]));
                assert(tvals.take(k + 1) =~= tvals.take(k as int).push(tvals[k as int]));
                assert(res1 + tvals.take(k as int).push(tvals[k as int]) =~= (res1 + tvals.take(
                    k as int,
                )).push(tvals[k as int]));
            }
            k += 1;
        }
    }
    let ghost nf2 = not_found.deep_view();
    let ghost res2 = results.deep_view();
    // accession batch
    if accession_rows.len() != accessions.len() {
        let mut k: usize = 0;
        while k < accessions.len()
            invariant
                av == accessions.deep_view(),
                akeys == row_keys(accession_rows@),
                av.len() == accessions.len(),
                k <= accessions.len(),
                not_found.deep_view() == nf2 + missing_below(av, akeys, k as int),
                results.deep_view() == res2,
            decreases accessions.len() - k,
        {
            let ghost pre = not_found.deep_view();
            if !contains_key(accession_rows, &accessions[k]) {
                not_found.push(accessions[k].clone());
                proof {
                    assert(not_found.deep_view() =~= pre.push(av[k as int]));
                    assert(nf2 + missing_below(av, akeys, k as int).push(av[k as int]) =~= (nf2
                        + missing_below(av, akeys, k as int)).push(av[k as int]));
                }
            }
            k += 1;
        }
    } else {
        let mut k: usize = 0;
        while k < accession_rows.len()
            invariant
                avals == row_values(accession_rows@),
                k <= accession_rows.len(),
                avals.len() == accession_rows.len(),
                not_found.deep_view() == nf2,
                results.deep_view() == res2 + avals.take(k as int),
            decreases accession_rows.len() - k,
        {
            let ghost pre = results.deep_view();
            results.push(accession_rows[k].1.clone());
            proof {
                assert(results.deep_view() =~= pre.push(avals[k as int]));
                assert(avals.take(k + 1) =~= avals.take(k as int).push(avals[k as int]));
                assert(res2 + avals.take(k as int).push(avals[k as int]) =~= (res2 + avals.take(
                    k as int,
                )).push(avals[k as int]));
            }
            k += 1;
        }
    }
    proof {
        if lgot.len() != lv.len() {
        } else {
            assert(lv.take(lv.len() as int) =~= lv);
        }
        if tkeys.len() == tv.len() {
            assert(tvals.take(tvals.len() as int) =~= tvals);
        }
        if akeys.len() == av.len() {
            assert(avals.take(avals.len() as int) =~= avals);
        }
        assert(nf1 =~= nf1 + Seq::<Seq<char>>::empty());
        assert(res1 =~= res1 + Seq::<Seq<char>>::empty());
        assert(nf2 =~= nf2 + Seq::<Seq<char>>::empty());
        assert(res2 =~= res2 + Seq::<Seq<char>>::empty());
    }
    if not_found.len() > 0 {
        Err(TaxoError::NotFound(not_found))
    } else {
        Ok(results)
    }
}

/// The Newick text for the subtree of the adjacency rows rooted at node 1,
/// pruned to the rows whose rank is one of `ranks` and their ancestors,
/// with the terminating `;` appended; empty when nothing is retained.
pub fn generate_newick_tree(records: &Vec<crate::tree::NodeRecord>, ranks: &Vec<String>) -> (r:
    String)
    requires
        records@.len() < usize::MAX,
    ensures
        ({
            let leaves = crate::tree::selected_leaves(records@, ranks.deep_view());
            match crate::tree::prune_tree(records@, 1, leaves, (records@.len() + 1) as nat) {
                Some(m) => r@ == crate::tree::nested_newick(m) + seq![';'],
                None => r@ == Seq::<char>::empty(),
            }
        }),
{
    let leaf_nodes = crate::tree::get_leaf_nodes_by_rank(records, ranks);
    match crate::tree::build_pruned_tree(records, 1, &leaf_nodes) {
        Some(root) => {
            let mut newick = String::new();
            crate::tree::write_node_to_newick(&root, &mut newick);
            newick.append(";");
            proof {
                reveal_strlit(";");
                assert((";")@ =~= seq![';']);
            }
            newick
        },
        None => String::new(),
    }
}

} // verus!
