//! Chain-format alignment parser: strand model, sequence metadata, and the
//! record grammar (header line + block lines) with strand-aware coordinate
//! derivation.

use crate::interval::{block_ivl_wf, ivls_view, Block, BlockIvl, BlockIvlV, BlockV};
use vstd::prelude::*;

verus! {

/// Orientation of a sequence or mapping relative to the forward sense.
#[derive(Debug, Clone, Copy, PartialEq, Eq, Structural)]
pub enum Strand {
    Positive,
    Negative,
}

impl Strand {
    /// The opposite orientation.
    pub open spec fn spec_reverse(self) -> Strand {
        match self {
            Strand::Positive => Strand::Negative,
            Strand::Negative => Strand::Positive,
        }
    }

    /// Swap the orientation; an involution on the two values.
    pub fn reverse(&self) -> (r: Self)
        ensures
            r == self.spec_reverse(),
    {
        match self {
            Strand::Positive => Strand::Negative,
            Strand::Negative => Strand::Positive,
        }
    }
}

/// Reversing a strand twice gives the strand back.
pub proof fn lemma_reverse_involution(s: Strand)
    ensures
        s.spec_reverse().spec_reverse() == s,
{
}

// ---------------------------------------------------------------------------
// Text primitives: lines, whitespace tokens, decimal numbers.
// ---------------------------------------------------------------------------

/// ASCII whitespace, as the chain grammar separates fields.
pub open spec fn is_space(c: u8) -> bool {
    c == 32 || c == 9 || c == 10 || c == 11 || c == 12 || c == 13
}

/// ASCII decimal digit.
pub open spec fn is_digit(c: u8) -> bool {
    48 <= c && c <= 57
}

/// Index of the first line break at or after `i`, or the end of `s`.
pub open spec fn spec_line_end(s: Seq<u8>, i: int) -> int
    decreases s.len() - i when 0 <= i <= s.len()
{
    if i >= s.len() {
        s.len() as int
    } else if s[i] == 10 {
        i
    } else {
        spec_line_end(s, i + 1)
    }
}

/// Start of the line after the one beginning at `i`.
pub open spec fn spec_next_line(s: Seq<u8>, i: int) -> int {
    let e = spec_line_end(s, i);
    if e >= s.len() {
        s.len() as int
    } else {
        e + 1
    }
}

/// Index of the first non-whitespace byte in `[i, e)`, or `e`.
pub open spec fn spec_skip_space(s: Seq<u8>, i: int, e: int) -> int
    decreases e - i when 0 <= i && i <= e && e <= s.len()
{
    if i >= e {
        e
    } else if is_space(s[i]) {
        spec_skip_space(s, i + 1, e)
    } else {
        i
    }
}

/// Index of the first whitespace byte in `[i, e)`, or `e`.
pub open spec fn spec_token_end(s: Seq<u8>, i: int, e: int) -> int
    decreases e - i when 0 <= i && i <= e && e <= s.len()
{
    if i >= e {
        e
    } else if is_space(s[i]) {
        i
    } else {
        spec_token_end(s, i + 1, e)
    }
}

pub proof fn lemma_line_end_bounds(s: Seq<u8>, i: int)
    requires
        0 <= i <= s.len(),
    ensures
        i <= spec_line_end(s, i) <= s.len(),
        forall|k: int| i <= k < spec_line_end(s, i) ==> s[k] != 10,
        spec_line_end(s, i) < s.len() ==> s[spec_line_end(s, i)] == 10,
    decreases s.len() - i,
{
    if i < s.len() && s[i] != 10 {
        lemma_line_end_bounds(s, i + 1);
    }
}

pub proof fn lemma_skip_space_bounds(s: Seq<u8>, i: int, e: int)
    requires
        0 <= i <= e <= s.len(),
    ensures
        i <= spec_skip_space(s, i, e) <= e,
        spec_skip_space(s, i, e) < e ==> !is_space(s[spec_skip_space(s, i, e)]),
        forall|k: int| i <= k < spec_skip_space(s, i, e) ==> is_space(s[k]),
    decreases e - i,
{
    if i < e && is_space(s[i]) {
        lemma_skip_space_bounds(s, i + 1, e);
    }
}

pub proof fn lemma_token_end_bounds(s: Seq<u8>, i: int, e: int)
    requires
        0 <= i <= e <= s.len(),
    ensures
        i <= spec_token_end(s, i, e) <= e,
        spec_token_end(s, i, e) < e ==> is_space(s[spec_token_end(s, i, e)]),
        forall|k: int| i <= k < spec_token_end(s, i, e) ==> !is_space(s[k]),
    decreases e - i,
{
    if i < e && !is_space(s[i]) {
        lemma_token_end_bounds(s, i + 1, e);
    }
}

/// The whitespace-separated tokens of `s` within `[i, e)`, in order:
/// the maximal runs of non-whitespace bytes.
pub open spec fn spec_tokens(s: Seq<u8>, i: int, e: int) -> Seq<Seq<u8>>
    decreases e - i when 0 <= i && i <= e && e <= s.len()
        via spec_tokens_decreases
{
    let j = spec_skip_space(s, i, e);
    if j >= e {
        Seq::empty()
    } else {
        seq![s.subrange(j, spec_token_end(s, j, e))] + spec_tokens(s, spec_token_end(s, j, e), e)
    }
}

#[via_fn]
proof fn spec_tokens_decreases(s: Seq<u8>, i: int, e: int) {
    lemma_skip_space_bounds(s, i, e);
    let j = spec_skip_space(s, i, e);
    if j < e {
        lemma_token_end_bounds(s, j, e);
    }
}

/// The numeric value of a run of decimal digits (most significant first).
pub open spec fn digits_val(s: Seq<u8>) -> int
    decreases s.len(),
{
    if s.len() == 0 {
        0
    } else {
        digits_val(s.drop_last()) * 10 + s.last() - 48
    }
}

/// Every byte of `s` is a decimal digit.
pub open spec fn all_digits(s: Seq<u8>) -> bool {
    forall|k: int| 0 <= k < s.len() ==> is_digit(#[trigger] s[k])
}

proof fn lemma_digits_val_nonneg(s: Seq<u8>)
    requires
        all_digits(s),
    ensures
        digits_val(s) >= 0,
    decreases s.len(),
{
    if s.len() > 0 {
        assert(all_digits(s.drop_last()));
        lemma_digits_val_nonneg(s.drop_last());
    }
}

proof fn lemma_digits_val_prefix(s: Seq<u8>, k: int)
    requires
        all_digits(s),
        0 <= k <= s.len(),
    ensures
        digits_val(s.subrange(0, k)) <= digits_val(s),
    decreases s.len() - k,
{
    if k < s.len() {
        lemma_digits_val_prefix(s, k + 1);
        let p = s.subrange(0, k + 1);
        assert(p.drop_last() =~= s.subrange(0, k));
        assert(all_digits(s.subrange(0, k)));
        lemma_digits_val_nonneg(s.subrange(0, k));
        assert(digits_val(p) == digits_val(s.subrange(0, k)) * 10 + p.last() - 48);
        assert(digits_val(s.subrange(0, k)) <= digits_val(p));
    } else {
        assert(s.subrange(0, k) =~= s);
    }
}

/// Find the first line break at or after `i`.
fn line_end(data: &Vec<u8>, i: usize) -> (r: usize)
    requires
        i <= data.len(),
    ensures
        r == spec_line_end(data@, i as int),
{
    let mut j: usize = i;
    while j < data.len() && data[j] != 10
        invariant
            i <= j <= data.len(),
            spec_line_end(data@, i as int) == spec_line_end(data@, j as int),
        decreases data.len() - j,
    {
        j = j + 1;
    }
    j
}

/// Copy the bytes of `[from, to)` out of `data`.
fn subvec(data: &Vec<u8>, from: usize, to: usize) -> (r: Vec<u8>)
    requires
        from <= to <= data.len(),
    ensures
        r@ == data@.subrange(from as int, to as int),
{
    let mut r: Vec<u8> = Vec::new();
    let mut j: usize = from;
    while j < to
        invariant
            from <= j <= to <= data.len(),
            r@ == data@.subrange(from as int, j as int),
        decreases to - j,
    {
        let c = data[j];
        r.push(c);
        j = j + 1;
        proof {
            assert(r@ =~= data@.subrange(from as int, j as int));
        }
    }
    r
}

fn exec_is_space(c: u8) -> (r: bool)
    ensures
        r == is_space(c),
{
    c == 32 || c == 9 || c == 10 || c == 11 || c == 12 || c == 13
}

/// Split `[from, to)` of `data` into its whitespace-separated tokens.
fn tokens_in(data: &Vec<u8>, from: usize, to: usize) -> (r: Vec<Vec<u8>>)
    requires
        from <= to <= data.len(),
    ensures
        r.deep_view() == spec_tokens(data@, from as int, to as int),
{
    let ghost s = data@;
    let mut r: Vec<Vec<u8>> = Vec::new();
    let mut i: usize = from;
    loop
        invariant
            from <= i <= to <= data.len(),
            s == data@,
            spec_tokens(s, from as int, to as int) == r.deep_view() + spec_tokens(
                s,
                i as int,
                to as int,
            ),
        decreases to - i,
    {
        let ghost i0 = i as int;
        // skip the whitespace before the next token
        while i < to && exec_is_space(data[i])
            invariant
                from <= i <= to <= data.len(),
                i0 <= i as int,
                s == data@,
                spec_tokens(s, from as int, to as int) == r.deep_view() + spec_tokens(
                    s,
                    i as int,
                    to as int,
                ),
            decreases to - i,
        {
            proof {
                assert(spec_tokens(s, i as int, to as int) == spec_tokens(
                    s,
                    i as int + 1,
                    to as int,
                ));
            }
            i = i + 1;
        }
        if i >= to {
            proof {
                assert(spec_tokens(s, i as int, to as int) =~= Seq::<Seq<u8>>::empty());
                assert(r.deep_view() =~~= spec_tokens(s, from as int, to as int));
            }
            return r;
        }
        // scan to the end of the token
        let start: usize = i;
        while i < to && !exec_is_space(data[i])
            invariant
                from <= start <= i <= to <= data.len(),
                s == data@,
                spec_token_end(s, start as int, to as int) == spec_token_end(
                    s,
                    i as int,
                    to as int,
                ),
            decreases to - i,
        {
            i = i + 1;
        }
        proof {
            assert(!is_space(s[start as int]));
            assert(spec_skip_space(s, start as int, to as int) == start as int);
            assert(spec_token_end(s, start as int, to as int) == i as int);
            lemma_token_end_bounds(s, start as int + 1, to as int);
            assert(i as int >= start as int + 1);
        }
        let tok = subvec(data, start, i);
        let ghost rd0 = r.deep_view();
        r.push(tok);
        proof {
            assert(r.deep_view() =~~= rd0.push(s.subrange(start as int, i as int)));
            assert(spec_tokens(s, start as int, to as int) == seq![
                s.subrange(start as int, i as int),
            ] + spec_tokens(s, i as int, to as int));
            assert(spec_tokens(s, from as int, to as int) =~~= r.deep_view() + spec_tokens(
                s,
                i as int,
                to as int,
            ));
        }
    }
}

/// Copy a byte vector.
pub(crate) fn copy_bytes(v: &Vec<u8>) -> (r: Vec<u8>)
    ensures
        r@ == v@,
{
    let r = subvec(v, 0, v.len());
    proof {
        assert(v@.subrange(0, v@.len() as int) =~= v@);
    }
    r
}

/// Parse a whole token as a decimal number, rejecting anything that is not
/// a run of digits whose value fits in `usize`.
fn parse_usize(s: &Vec<u8>) -> (r: Option<usize>)
    ensures
        match r {
            Some(n) => s@.len() > 0 && all_digits(s@) && n as int == digits_val(s@),
            None => s@.len() == 0 || !all_digits(s@) || digits_val(s@) > usize::MAX as int,
        },
{
    if s.len() == 0 {
        return None;
    }
    let mut acc: usize = 0;
    let mut i: usize = 0;
    while i < s.len()
        invariant
            0 <= i <= s.len(),
            all_digits(s@.subrange(0, i as int)),
            acc as int == digits_val(s@.subrange(0, i as int)),
        decreases s.len() - i,
    {
        let c = s[i];
        if !(48 <= c && c <= 57) {
            assert(!is_digit(s@[i as int]));
            return None;
        }
        let d = (c - 48) as usize;
        let ghost prefix = s@.subrange(0, i as int);
        let ghost grown = s@.subrange(0, i as int + 1);
        proof {
            assert(grown.drop_last() =~= prefix);
            assert(digits_val(grown) == digits_val(prefix) * 10 + c - 48);
        }
        let next = match acc.checked_mul(10) {
            Some(x) => x.checked_add(d),
            None => None,
        };
        match next {
            Some(v) => {
                acc = v;
            },
            None => {
                proof {
                    if all_digits(s@) {
                        lemma_digits_val_prefix(s@, i as int + 1);
                    }
                }
                return None;
            },
        }
        i = i + 1;
    }
    proof {
        assert(s@.subrange(0, s@.len() as int) =~= s@);
    }
    Some(acc)
}

// ---------------------------------------------------------------------------
// Score tokens: the shape of a decimal number, checked without evaluating it.
// ---------------------------------------------------------------------------

/// Index of the first non-digit byte at or after `i`, or the end of `s`.
pub open spec fn spec_digits_end(s: Seq<u8>, i: int) -> int
    decreases s.len() - i when 0 <= i <= s.len()
{
    if i >= s.len() {
        s.len() as int
    } else if is_digit(s[i]) {
        spec_digits_end(s, i + 1)
    } else {
        i
    }
}

pub proof fn lemma_digits_end_bounds(s: Seq<u8>, i: int)
    requires
        0 <= i <= s.len(),
    ensures
        i <= spec_digits_end(s, i) <= s.len(),
    decreases s.len() - i,
{
    if i < s.len() && is_digit(s[i]) {
        lemma_digits_end_bounds(s, i + 1);
    }
}

/// A decimal number, as the score field of a header carries one: an optional
/// sign, digits with an optional fraction part (at least one digit in all),
/// and an optional exponent with its own optional sign and digits.
pub open spec fn is_number_token(s: Seq<u8>) -> bool {
    let i0: int = if s.len() > 0 && (s[0] == 43 || s[0] == 45) {
        1
    } else {
        0
    };
    let d1 = spec_digits_end(s, i0);
    let frac = d1 < s.len() && s[d1] == 46;
    let m_end = if frac {
        spec_digits_end(s, d1 + 1)
    } else {
        d1
    };
    let has_digits = if frac {
        d1 > i0 || m_end > d1 + 1
    } else {
        d1 > i0
    };
    if !has_digits {
        false
    } else if m_end == s.len() {
        true
    } else if s[m_end] == 101 || s[m_end] == 69 {
        let j2: int = if m_end + 1 < s.len() && (s[m_end + 1] == 43 || s[m_end + 1] == 45) {
            m_end + 2
        } else {
            m_end + 1
        };
        j2 <= s.len() && spec_digits_end(s, j2) == s.len() && spec_digits_end(s, j2) > j2
    } else {
        false
    }
}

/// Find the first non-digit byte at or after `i`.
fn digits_end(data: &Vec<u8>, i: usize) -> (r: usize)
    requires
        i <= data.len(),
    ensures
        r == spec_digits_end(data@, i as int),
        i <= r <= data.len(),
{
    proof {
        lemma_digits_end_bounds(data@, i as int);
    }
    let mut j: usize = i;
    while j < data.len() && 48 <= data[j] && data[j] <= 57
        invariant
            i <= j <= data.len(),
            spec_digits_end(data@, i as int) == spec_digits_end(data@, j as int),
        decreases data.len() - j,
    {
        j = j + 1;
    }
    j
}

/// Decide whether a token has the shape of a decimal number.
fn is_number(t: &Vec<u8>) -> (r: bool)
    ensures
        r == is_number_token(t@),
{
    let i0: usize = if t.len() > 0 && (t[0] == 43 || t[0] == 45) {
        1
    } else {
        0
    };
    let d1 = digits_end(t, i0);
    let frac = d1 < t.len() && t[d1] == 46;
    let m_end = if frac {
        digits_end(t, d1 + 1)
    } else {
        d1
    };
    let has_digits = if frac {
        d1 > i0 || m_end > d1 + 1
    } else {
        d1 > i0
    };
    if !has_digits {
        false
    } else if m_end == t.len() {
        true
    } else if t[m_end] == 101 || t[m_end] == 69 {
        let j2: usize = if m_end + 1 < t.len() && (t[m_end + 1] == 43 || t[m_end + 1] == 45) {
            m_end + 2
        } else {
            m_end + 1
        };
        let d3 = digits_end(t, j2);
        d3 == t.len() && d3 > j2
    } else {
        false
    }
}

// ---------------------------------------------------------------------------
// Records: header, raw blocks, derived intervals.
// ---------------------------------------------------------------------------

/// Identity, extent and orientation of one side of an alignment, as a header
/// line declares it. The well-formed ones satisfy `start <= end <= size`.
#[derive(Debug, Clone)]
pub struct SeqInfo {
    pub name: Vec<u8>,
    pub size: usize,
    pub strand: Strand,
    pub start: usize,
    pub end: usize,
}

/// Mathematical model of a [`SeqInfo`].
#[verifier::ext_equal]
pub struct SeqInfoV {
    pub name: Seq<u8>,
    pub size: int,
    pub strand: Strand,
    pub start: int,
    pub end: int,
}

impl View for SeqInfo {
    type V = SeqInfoV;

    open spec fn view(&self) -> SeqInfoV {
        SeqInfoV {
            name: self.name@,
            size: self.size as int,
            strand: self.strand,
            start: self.start as int,
            end: self.end as int,
        }
    }
}

/// The alignment's extent lies within the sequence.
pub open spec fn seq_info_wf(s: SeqInfoV) -> bool {
    0 <= s.start <= s.end <= s.size <= usize::MAX as int
}

/// One alignment record's header: the informational score (kept as its raw
/// text), both sides' sequence information, and the record identifier.
#[derive(Debug, Clone)]
pub struct Header {
    pub score: Vec<u8>,
    pub target: SeqInfo,
    pub query: SeqInfo,
    pub chain_id: usize,
}

/// Mathematical model of a [`Header`].
#[verifier::ext_equal]
pub struct HeaderV {
    pub score: Seq<u8>,
    pub target: SeqInfoV,
    pub query: SeqInfoV,
    pub chain_id: int,
}

impl View for Header {
    type V = HeaderV;

    open spec fn view(&self) -> HeaderV {
        HeaderV {
            score: self.score@,
            target: self.target@,
            query: self.query@,
            chain_id: self.chain_id as int,
        }
    }
}

/// A raw block line: the length of one ungapped aligned run, and the gaps
/// separating it from the next run on the target and the query side.
#[derive(Debug, Clone)]
pub struct Alignment {
    pub size: usize,
    pub target_diff: usize,
    pub query_diff: usize,
}

impl View for Alignment {
    type V = (int, int, int);

    open spec fn view(&self) -> (int, int, int) {
        (self.size as int, self.target_diff as int, self.query_diff as int)
    }
}

impl DeepView for Alignment {
    type V = (int, int, int);

    open spec fn deep_view(&self) -> (int, int, int) {
        self.view()
    }
}

/// Why a record was rejected: its header line, or one of its block lines.
#[derive(Debug, Clone, Copy, PartialEq, Eq, Structural)]
pub enum ParseError {
    BadHeader,
    BadBlock,
}

/// The strand a header field names: `+` or `-`, nothing else.
pub open spec fn spec_strand_tok(t: Seq<u8>) -> Option<Strand> {
    if t == seq![43u8] {
        Some(Strand::Positive)
    } else if t == seq![45u8] {
        Some(Strand::Negative)
    } else {
        None
    }
}

/// The number a header or block field carries, when the whole token is
/// digits and its value fits the machine.
pub open spec fn tok_usize(t: Seq<u8>) -> Option<int> {
    if t.len() > 0 && all_digits(t) && digits_val(t) <= usize::MAX as int {
        Some(digits_val(t))
    } else {
        None
    }
}

/// What a header line's twelve fields mean: `None` when the line is not a
/// well-formed header (wrong field count, malformed number or strand, or an
/// extent that does not satisfy `start <= end <= size`).
pub open spec fn spec_header(toks: Seq<Seq<u8>>) -> Option<HeaderV> {
    if toks.len() == 12 && is_number_token(toks[0]) {
        match (spec_strand_tok(toks[3]), spec_strand_tok(toks[8])) {
            (Some(ts), Some(qs)) => match (tok_usize(toks[2]), tok_usize(toks[4]), tok_usize(
                toks[5],
            ), tok_usize(toks[7]), tok_usize(toks[9]), tok_usize(toks[10]), tok_usize(toks[11])) {
                (
                    Some(tsize),
                    Some(tstart),
                    Some(tend),
                    Some(qsize),
                    Some(qstart),
                    Some(qend),
                    Some(id),
                ) => {
                    if tstart <= tend && tend <= tsize && qstart <= qend && qend <= qsize {
                        Some(
                            (HeaderV {
                                score: toks[0],
                                target: (SeqInfoV {
                                    name: toks[1],
                                    size: tsize,
                                    strand: ts,
                                    start: tstart,
                                    end: tend,
                                }),
                                query: (SeqInfoV {
                                    name: toks[6],
                                    size: qsize,
                                    strand: qs,
                                    start: qstart,
                                    end: qend,
                                }),
                                chain_id: id,
                            }),
                        )
                    } else {
                        None
                    }
                },
                _ => None,
            },
            _ => None,
        }
    } else {
        None
    }
}

/// Read a strand field.
fn parse_strand(t: &Vec<u8>) -> (r: Option<Strand>)
    ensures
        r == spec_strand_tok(t@),
{
    if t.len() == 1 && t[0] == 43 {
        proof {
            assert(t@ =~= seq![43u8]);
        }
        Some(Strand::Positive)
    } else if t.len() == 1 && t[0] == 45 {
        proof {
            assert(t@ =~= seq![45u8]);
        }
        Some(Strand::Negative)
    } else {
        proof {
            if t@.len() == 1 {
                assert(t@[0] == 43 ==> t@ =~= seq![43u8]);
                assert(t@[0] == 45 ==> t@ =~= seq![45u8]);
            } else {
                assert(t@ != seq![43u8] && t@ != seq![45u8]) by {
                    assert(seq![43u8].len() == 1 && seq![45u8].len() == 1);
                }
            }
        }
        None
    }
}

/// Read a numeric field.
fn parse_field(t: &Vec<u8>) -> (r: Option<usize>)
    ensures
        match r {
            Some(n) => tok_usize(t@) == Some(n as int),
            None => tok_usize(t@) == None::<int>,
        },
{
    parse_usize(t)
}

/// Interpret the twelve whitespace-separated fields that follow the record
/// tag on a header line.
pub fn parse_header(toks: &Vec<Vec<u8>>) -> (r: Result<Header, ParseError>)
    ensures
        match r {
            Ok(h) => spec_header(toks.deep_view()) == Some(h@) && seq_info_wf(h.target@)
                && seq_info_wf(h.query@),
            Err(e) => e == ParseError::BadHeader && spec_header(toks.deep_view()) == None::<
                HeaderV,
            >,
        },
{
    let ghost dv = toks.deep_view();
    proof {
        assert forall|k: int| 0 <= k < toks@.len() implies dv[k] == toks@[k]@ by {}
    }
    if toks.len() != 12 {
        return Err(ParseError::BadHeader);
    }
    if !is_number(&toks[0]) {
        return Err(ParseError::BadHeader);
    }
    let ts = match parse_strand(&toks[3]) {
        Some(s) => s,
        None => {
            return Err(ParseError::BadHeader);
        },
    };
    let qs = match parse_strand(&toks[8]) {
        Some(s) => s,
        None => {
            return Err(ParseError::BadHeader);
        },
    };
    let tsize = match parse_field(&toks[2]) {
        Some(n) => n,
        None => {
            return Err(ParseError::BadHeader);
        },
    };
    let tstart = match parse_field(&toks[4]) {
        Some(n) => n,
        None => {
            return Err(ParseError::BadHeader);
        },
    };
    let tend = match parse_field(&toks[5]) {
        Some(n) => n,
        None => {
            return Err(ParseError::BadHeader);
        },
    };
    let qsize = match parse_field(&toks[7]) {
        Some(n) => n,
        None => {
            return Err(ParseError::BadHeader);
        },
    };
    let qstart = match parse_field(&toks[9]) {
        Some(n) => n,
        None => {
            return Err(ParseError::BadHeader);
        },
    };
    let qend = match parse_field(&toks[10]) {
        Some(n) => n,
        None => {
            return Err(ParseError::BadHeader);
        },
    };
    let id = match parse_field(&toks[11]) {
        Some(n) => n,
        None => {
            return Err(ParseError::BadHeader);
        },
    };
    if !(tstart <= tend && tend <= tsize && qstart <= qend && qend <= qsize) {
        return Err(ParseError::BadHeader);
    }
    let h = Header {
        score: copy_bytes(&toks[0]),
        target: SeqInfo { name: copy_bytes(&toks[1]), size: tsize, strand: ts, start: tstart, end: tend },
        query: SeqInfo { name: copy_bytes(&toks[6]), size: qsize, strand: qs, start: qstart, end: qend },
        chain_id: id,
    };
    proof {
        assert(spec_header(dv) == Some(h@)) by {
            assert(h@.score == dv[0]);
            assert(h@.target =~= spec_header(dv).unwrap().target);
            assert(h@.query =~= spec_header(dv).unwrap().query);
            assert(h@ =~= spec_header(dv).unwrap());
        }
    }
    Ok(h)
}

/// What a block line's one to three fields mean: the run length, then the
/// target-side and query-side gaps, each defaulting to zero when absent.
pub open spec fn spec_block_line(toks: Seq<Seq<u8>>) -> Option<(int, int, int)> {
    if 1 <= toks.len() <= 3 {
        match tok_usize(toks[0]) {
            Some(sz) => {
                let td = if toks.len() >= 2 {
                    tok_usize(toks[1])
                } else {
                    Some(0)
                };
                let qd = if toks.len() >= 3 {
                    tok_usize(toks[2])
                } else {
                    Some(0)
                };
                match (td, qd) {
                    (Some(t), Some(q)) => Some((sz, t, q)),
                    _ => None,
                }
            },
            None => None,
        }
    } else {
        None
    }
}

/// Interpret one block line's fields.
pub fn parse_block_line(toks: &Vec<Vec<u8>>) -> (r: Result<Alignment, ParseError>)
    ensures
        match r {
            Ok(a) => spec_block_line(toks.deep_view()) == Some(a@),
            Err(e) => e == ParseError::BadBlock && spec_block_line(toks.deep_view()) == None::<
                (int, int, int),
            >,
        },
{
    let ghost dv = toks.deep_view();
    proof {
        assert forall|k: int| 0 <= k < toks@.len() implies dv[k] == toks@[k]@ by {}
    }
    if toks.len() < 1 || toks.len() > 3 {
        return Err(ParseError::BadBlock);
    }
    let size = match parse_field(&toks[0]) {
        Some(n) => n,
        None => {
            return Err(ParseError::BadBlock);
        },
    };
    let target_diff = if toks.len() >= 2 {
        match parse_field(&toks[1]) {
            Some(n) => n,
            None => {
                return Err(ParseError::BadBlock);
            },
        }
    } else {
        0
    };
    let query_diff = if toks.len() >= 3 {
        match parse_field(&toks[2]) {
            Some(n) => n,
            None => {
                return Err(ParseError::BadBlock);
            },
        }
    } else {
        0
    };
    Ok(Alignment { size, target_diff, query_diff })
}

// ---------------------------------------------------------------------------
// Coordinate derivation: two running cursors, mirrored on a reverse query.
// ---------------------------------------------------------------------------

/// Walk the raw blocks with a target and a query cursor and give every run
/// its target and (forward-normalized) query coordinates, as quadruples
/// `(target_start, target_end, query_start, query_end)`. `None` when a
/// cursor would overflow the machine, or a reverse-strand run would leave
/// `[0, qsize)`.
pub open spec fn spec_derive(
    tcur: int,
    qcur: int,
    qsize: int,
    qstrand: Strand,
    raw: Seq<(int, int, int)>,
) -> Option<Seq<(int, int, int, int)>>
    decreases raw.len(),
{
    if raw.len() == 0 {
        Some(Seq::empty())
    } else {
        let sz = raw[0].0;
        let td = raw[0].1;
        let qd = raw[0].2;
        if tcur + sz + td <= usize::MAX as int && qcur + sz + qd <= usize::MAX as int && (
        qstrand == Strand::Negative ==> qcur + sz <= qsize) {
            let q2 = if qstrand == Strand::Positive {
                qcur
            } else {
                qsize - (qcur + sz)
            };
            let q3 = if qstrand == Strand::Positive {
                qcur + sz
            } else {
                qsize - qcur
            };
            match spec_derive(tcur + sz + td, qcur + sz + qd, qsize, qstrand, raw.drop_first()) {
                Some(rest) => Some(seq![(tcur, tcur + sz, q2, q3)] + rest),
                None => None,
            }
        } else {
            None
        }
    }
}

/// The model of a derived interval built from one quadruple.
pub open spec fn block_ivl_of(c: (int, int, int, int), qname: Seq<u8>, qstrand: Strand) -> BlockIvlV {
    BlockIvlV {
        start: c.0,
        stop: c.1,
        val: (BlockV { name: qname, start: c.2, end: c.3, strand: qstrand }),
    }
}

/// The models of a record's derived intervals.
pub open spec fn blocks_from(
    coords: Seq<(int, int, int, int)>,
    qname: Seq<u8>,
    qstrand: Strand,
) -> Seq<BlockIvlV> {
    coords.map_values(|c: (int, int, int, int)| block_ivl_of(c, qname, qstrand))
}

/// Derive the intervals of one record from its header fields and raw blocks.
/// Rejects (as a bad block) any walk whose cursors leave the machine's range
/// or, on a reverse query, the query sequence.
pub fn derive_blocks(
    qname: &Vec<u8>,
    qsize: usize,
    qstrand: Strand,
    tstart: usize,
    qstart: usize,
    raw: &Vec<Alignment>,
) -> (r: Result<Vec<BlockIvl>, ParseError>)
    ensures
        match r {
            Ok(v) => {
                &&& spec_derive(tstart as int, qstart as int, qsize as int, qstrand, raw.deep_view())
                    is Some
                &&& ivls_view(v@) == blocks_from(
                    spec_derive(
                        tstart as int,
                        qstart as int,
                        qsize as int,
                        qstrand,
                        raw.deep_view(),
                    ).unwrap(),
                    qname@,
                    qstrand,
                )
                &&& forall|k: int| 0 <= k < v@.len() ==> block_ivl_wf(#[trigger] v@[k]@)
            },
            Err(e) => e == ParseError::BadBlock && spec_derive(
                tstart as int,
                qstart as int,
                qsize as int,
                qstrand,
                raw.deep_view(),
            ) == None::<Seq<(int, int, int, int)>>,
        },
{
    let ghost rawm = raw.deep_view();
    proof {
        assert forall|k: int| 0 <= k < raw@.len() implies rawm[k] == raw@[k]@ by {}
        assert(rawm.skip(0) =~= rawm);
    }
    let mut out: Vec<BlockIvl> = Vec::new();
    let mut tcur: usize = tstart;
    let mut qcur: usize = qstart;
    let mut i: usize = 0;
    proof {
        assert(ivls_view(out@) =~= Seq::<BlockIvlV>::empty());
        assert(ivls_view(out@).map_values(|b: BlockIvlV| (b.start, b.stop, b.val.start, b.val.end))
            =~= Seq::<(int, int, int, int)>::empty());
        if spec_derive(tstart as int, qstart as int, qsize as int, qstrand, rawm) is Some {
            let rest = spec_derive(tstart as int, qstart as int, qsize as int, qstrand,
                rawm).unwrap();
            assert(Seq::<(int, int, int, int)>::empty() + rest =~= rest);
        }
        assert(blocks_from(Seq::<(int, int, int, int)>::empty(), qname@, qstrand) =~= Seq::<
            BlockIvlV,
        >::empty());
    }
    while i < raw.len()
        invariant
            0 <= i <= raw.len(),
            rawm == raw.deep_view(),
            rawm.len() == raw@.len(),
            forall|k: int| 0 <= k < raw@.len() ==> rawm[k] == #[trigger] raw@[k]@,
            spec_derive(tstart as int, qstart as int, qsize as int, qstrand, rawm) == (match
                spec_derive(tcur as int, qcur as int, qsize as int, qstrand, rawm.skip(i as int)) {
                Some(rest) => Some(ivls_view(out@).map_values(|b: BlockIvlV| (b.start, b.stop, b.val.start, b.val.end)) + rest),
                None => None::<Seq<(int, int, int, int)>>,
            }),
            ivls_view(out@) == blocks_from(
                ivls_view(out@).map_values(|b: BlockIvlV| (b.start, b.stop, b.val.start, b.val.end)),
                qname@,
                qstrand,
            ),
            forall|k: int| 0 <= k < out@.len() ==> block_ivl_wf(#[trigger] out@[k]@),
        decreases raw.len() - i,
    {
        let a = &raw[i];
        let ghost tail = rawm.skip(i as int);
        proof {
            assert(tail.len() > 0 && tail[0] == rawm[i as int]);
            assert(tail.drop_first() =~= rawm.skip(i as int + 1));
        }
        // the target cursor step
        let tnext = match tcur.checked_add(a.size) {
            Some(x) => match x.checked_add(a.target_diff) {
                Some(y) => y,
                None => {
                    return Err(ParseError::BadBlock);
                },
            },
            None => {
                return Err(ParseError::BadBlock);
            },
        };
        // the query cursor step
        let qmid = match qcur.checked_add(a.size) {
            Some(x) => x,
            None => {
                return Err(ParseError::BadBlock);
            },
        };
        let qnext = match qmid.checked_add(a.query_diff) {
            Some(y) => y,
            None => {
                return Err(ParseError::BadBlock);
            },
        };
        let (q2, q3) = match qstrand {
            Strand::Positive => (qcur, qmid),
            Strand::Negative => {
                if qmid > qsize {
                    return Err(ParseError::BadBlock);
                }
                (qsize - qmid, qsize - qcur)
            },
        };
        let t2 = tcur;
        let t3 = tcur + a.size;
        let ivl = BlockIvl {
            start: t2,
            stop: t3,
            val: Block { name: copy_bytes(qname), start: q2, end: q3, strand: qstrand },
        };
        let ghost out0 = ivls_view(out@);
        out.push(ivl);
        proof {
            let c = (t2 as int, t3 as int, q2 as int, q3 as int);
            assert(ivls_view(out@) =~= out0.push(block_ivl_of(c, qname@, qstrand)));
            assert(ivls_view(out@).map_values(
                |b: BlockIvlV| (b.start, b.stop, b.val.start, b.val.end),
            ) =~= out0.map_values(|b: BlockIvlV| (b.start, b.stop, b.val.start, b.val.end)).push(
                c,
            ));
            assert(spec_derive(tcur as int, qcur as int, qsize as int, qstrand, tail) == (match
                spec_derive(tnext as int, qnext as int, qsize as int, qstrand, tail.drop_first()) {
                Some(rest) => Some(seq![c] + rest),
                None => None::<Seq<(int, int, int, int)>>,
            }));
            assert(forall|rest: Seq<(int, int, int, int)>| (out0.map_values(
                |b: BlockIvlV| (b.start, b.stop, b.val.start, b.val.end),
            ) + (seq![c] + rest)) =~= (out0.map_values(
                |b: BlockIvlV| (b.start, b.stop, b.val.start, b.val.end),
            ).push(c) + rest));
            assert(blocks_from(
                ivls_view(out@).map_values(
                    |b: BlockIvlV| (b.start, b.stop, b.val.start, b.val.end),
                ),
                qname@,
                qstrand,
            ) =~= ivls_view(out@));
        }
        tcur = tnext;
        qcur = qnext;
        i = i + 1;
    }
    proof {
        assert(rawm.skip(raw@.len() as int) =~= Seq::empty());
        let coords = ivls_view(out@).map_values(
            |b: BlockIvlV| (b.start, b.stop, b.val.start, b.val.end),
        );
        assert(coords + Seq::<(int, int, int, int)>::empty() =~= coords);
    }
    Ok(out)
}

// ---------------------------------------------------------------------------
// The record grammar: a header line, its block lines, resynchronization.
// ---------------------------------------------------------------------------

/// A line starting at `i` opens a record: it begins with the tag `chain`.
pub open spec fn is_header_at(s: Seq<u8>, i: int) -> bool {
    &&& i + 5 <= spec_line_end(s, i)
    &&& s[i] == 99
    &&& s[i + 1] == 104
    &&& s[i + 2] == 97
    &&& s[i + 3] == 105
    &&& s[i + 4] == 110
}

/// Start of the first header line at or after `i`, or the end of `s`.
pub open spec fn spec_find_header(s: Seq<u8>, i: int) -> int
    decreases s.len() - i when 0 <= i <= s.len()
        via spec_find_header_decreases
{
    if i >= s.len() {
        s.len() as int
    } else if is_header_at(s, i) {
        i
    } else {
        spec_find_header(s, spec_next_line(s, i))
    }
}

#[via_fn]
proof fn spec_find_header_decreases(s: Seq<u8>, i: int) {
    if 0 <= i < s.len() {
        lemma_line_end_bounds(s, i);
    }
}

/// Start of the first line at or after `i` with a token on it, or the end.
pub open spec fn spec_skip_blanks(s: Seq<u8>, i: int) -> int
    decreases s.len() - i when 0 <= i <= s.len()
        via spec_skip_blanks_decreases
{
    if i >= s.len() {
        s.len() as int
    } else if spec_tokens(s, i, spec_line_end(s, i)).len() == 0 {
        spec_skip_blanks(s, spec_next_line(s, i))
    } else {
        i
    }
}

#[via_fn]
proof fn spec_skip_blanks_decreases(s: Seq<u8>, i: int) {
    if 0 <= i < s.len() {
        lemma_line_end_bounds(s, i);
    }
}

/// Walk the lines from `i` to the record's end (the next header line or the
/// end of input), reading each non-blank line as a block line and skipping
/// blank ones. Yields the resulting position and the raw blocks, or `None`
/// with the resynchronization position (the next header line after the
/// offending line) when a line is no block line.
pub open spec fn spec_collect_blocks(s: Seq<u8>, i: int) -> (int, Option<Seq<(int, int, int)>>)
    decreases s.len() - i when 0 <= i <= s.len()
        via spec_collect_blocks_decreases
{
    if i >= s.len() {
        (s.len() as int, Some(Seq::empty()))
    } else if is_header_at(s, i) {
        (i, Some(Seq::empty()))
    } else {
        let toks = spec_tokens(s, i, spec_line_end(s, i));
        if toks.len() == 0 {
            spec_collect_blocks(s, spec_next_line(s, i))
        } else {
            match spec_block_line(toks) {
                Some(b) => {
                    let r = spec_collect_blocks(s, spec_next_line(s, i));
                    match r.1 {
                        Some(rest) => (r.0, Some(seq![b] + rest)),
                        None => r,
                    }
                },
                None => (spec_find_header(s, spec_next_line(s, i)), None),
            }
        }
    }
}

#[via_fn]
proof fn spec_collect_blocks_decreases(s: Seq<u8>, i: int) {
    if 0 <= i < s.len() {
        lemma_line_end_bounds(s, i);
    }
}

pub proof fn lemma_next_line_bounds(s: Seq<u8>, i: int)
    requires
        0 <= i <= s.len(),
    ensures
        i <= spec_next_line(s, i) <= s.len(),
        i < s.len() ==> i < spec_next_line(s, i),
{
    lemma_line_end_bounds(s, i);
}

pub proof fn lemma_find_header_bounds(s: Seq<u8>, i: int)
    requires
        0 <= i <= s.len(),
    ensures
        i <= spec_find_header(s, i) <= s.len(),
    decreases s.len() - i,
{
    if i < s.len() && !is_header_at(s, i) {
        lemma_next_line_bounds(s, i);
        lemma_find_header_bounds(s, spec_next_line(s, i));
    }
}

pub proof fn lemma_skip_blanks_bounds(s: Seq<u8>, i: int)
    requires
        0 <= i <= s.len(),
    ensures
        i <= spec_skip_blanks(s, i) <= s.len(),
    decreases s.len() - i,
{
    if i < s.len() && spec_tokens(s, i, spec_line_end(s, i)).len() == 0 {
        lemma_next_line_bounds(s, i);
        lemma_skip_blanks_bounds(s, spec_next_line(s, i));
    }
}

pub proof fn lemma_collect_blocks_bounds(s: Seq<u8>, i: int)
    requires
        0 <= i <= s.len(),
    ensures
        i <= spec_collect_blocks(s, i).0 <= s.len(),
    decreases s.len() - i,
{
    if i < s.len() && !is_header_at(s, i) {
        lemma_next_line_bounds(s, i);
        let toks = spec_tokens(s, i, spec_line_end(s, i));
        if toks.len() == 0 {
            lemma_collect_blocks_bounds(s, spec_next_line(s, i));
        } else {
            match spec_block_line(toks) {
                Some(_) => {
                    lemma_collect_blocks_bounds(s, spec_next_line(s, i));
                },
                None => {
                    lemma_find_header_bounds(s, spec_next_line(s, i));
                },
            }
        }
    }
}

/// One whole alignment record: its header and the derived intervals of its
/// blocks, target coordinates paired with forward-normalized query ranges.
#[derive(Debug, Clone)]
pub struct ChainRecord {
    pub header: Header,
    pub block_ivls: Vec<BlockIvl>,
}

/// Mathematical model of a [`ChainRecord`].
#[verifier::ext_equal]
pub struct RecordV {
    pub header: HeaderV,
    pub blocks: Seq<BlockIvlV>,
}

impl View for ChainRecord {
    type V = RecordV;

    open spec fn view(&self) -> RecordV {
        RecordV { header: self.header@, blocks: ivls_view(self.block_ivls@) }
    }
}

/// Every block of a well-formed record is colinear.
pub open spec fn record_wf(r: RecordV) -> bool {
    forall|k: int| 0 <= k < r.blocks.len() ==> block_ivl_wf(#[trigger] r.blocks[k])
}

/// Both sides of a well-formed header satisfy `start <= end <= size`.
pub open spec fn header_wf(h: HeaderV) -> bool {
    seq_info_wf(h.target) && seq_info_wf(h.query)
}

/// What one step of the parser yields from position `pos` of the input:
/// the position to resume from, and `None` at the end of input, or one
/// record, or one error for one damaged record (after which the resume
/// position is the next recognizable header line).
pub open spec fn spec_next(s: Seq<u8>, pos: int) -> (int, Option<Result<RecordV, ParseError>>) {
    let i = spec_skip_blanks(s, pos);
    if i >= s.len() {
        (s.len() as int, None::<Result<RecordV, ParseError>>)
    } else if !is_header_at(s, i) {
        (spec_find_header(s, spec_next_line(s, i)), Some(Err(ParseError::BadHeader)))
    } else {
        match spec_header(spec_tokens(s, i + 5, spec_line_end(s, i))) {
            None => (spec_find_header(s, spec_next_line(s, i)), Some(Err(ParseError::BadHeader))),
            Some(hv) => spec_next_of_record(s, spec_next_line(s, i), hv),
        }
    }
}

/// What the parser yields for a record whose header meant `hv` and whose
/// block lines start at `body`.
pub open spec fn spec_next_of_record(s: Seq<u8>, body: int, hv: HeaderV) -> (
    int,
    Option<Result<RecordV, ParseError>>,
) {
    let cb = spec_collect_blocks(s, body);
    match cb.1 {
        None => (cb.0, Some(Err(ParseError::BadBlock))),
        Some(raws) => {
            if raws.len() == 0 {
                (cb.0, Some(Err(ParseError::BadBlock)))
            } else {
                match spec_derive(
                    hv.target.start,
                    hv.query.start,
                    hv.query.size,
                    hv.query.strand,
                    raws,
                ) {
                    Some(coords) => (
                        cb.0,
                        Some(
                            Ok(
                                (RecordV {
                                    header: hv,
                                    blocks: blocks_from(coords, hv.query.name, hv.query.strand),
                                }),
                            ),
                        ),
                    ),
                    None => (cb.0, Some(Err(ParseError::BadBlock))),
                }
            }
        },
    }
}

/// The parser advances: it never moves backward, moves strictly forward
/// whenever it yields something, and stands at the end when it yields
/// nothing.
pub proof fn lemma_spec_next_progress(s: Seq<u8>, pos: int)
    requires
        0 <= pos <= s.len(),
    ensures
        pos <= spec_next(s, pos).0 <= s.len(),
        spec_next(s, pos).1 is Some ==> spec_next(s, pos).0 > pos,
        spec_next(s, pos).1 is None ==> spec_next(s, pos).0 == s.len(),
{
    lemma_skip_blanks_bounds(s, pos);
    let i = spec_skip_blanks(s, pos);
    if i < s.len() {
        lemma_next_line_bounds(s, i);
        lemma_find_header_bounds(s, spec_next_line(s, i));
        lemma_collect_blocks_bounds(s, spec_next_line(s, i));
    }
}

/// The full sequence of results the parser yields from position `pos` on.
pub open spec fn spec_records(s: Seq<u8>, pos: int) -> Seq<Result<RecordV, ParseError>>
    decreases s.len() - pos when 0 <= pos <= s.len()
        via spec_records_decreases
{
    let step = spec_next(s, pos);
    match step.1 {
        None => Seq::empty(),
        Some(x) => seq![x] + spec_records(s, step.0),
    }
}

#[via_fn]
proof fn spec_records_decreases(s: Seq<u8>, pos: int) {
    lemma_spec_next_progress(s, pos);
}

/// Whether an executable parser step carries exactly the modelled result.
pub open spec fn next_matches(
    r: Option<Result<ChainRecord, ParseError>>,
    r2: Option<Result<RecordV, ParseError>>,
) -> bool {
    match (r, r2) {
        (None, None) => true,
        (Some(Ok(rec)), Some(Ok(rv))) => rec@ == rv,
        (Some(Err(e)), Some(Err(e2))) => e == e2,
        _ => false,
    }
}

/// A lazy, single-pass reader of chain records: it owns the input buffer and
/// a cursor into it, and yields one record or one error per call of `next`
/// until the input is exhausted.
pub struct ChainRecords {
    pub data: Vec<u8>,
    pub pos: usize,
}

impl ChainRecords {
    /// The cursor lies within the buffer.
    pub open spec fn wf(self) -> bool {
        self.pos <= self.data@.len()
    }

    /// Begin reading records from the start of a buffer.
    pub fn new(data: Vec<u8>) -> (r: ChainRecords)
        ensures
            r.wf(),
            r.data@ == data@,
            r.pos == 0,
    {
        ChainRecords { data, pos: 0 }
    }

    /// Decide whether the line starting at `i` opens a record.
    fn is_header_line(data: &Vec<u8>, i: usize) -> (r: bool)
        requires
            i <= data.len(),
        ensures
            r == is_header_at(data@, i as int),
    {
        let le = line_end(data, i);
        proof {
            lemma_line_end_bounds(data@, i as int);
        }
        le - i >= 5 && data[i] == 99 && data[i + 1] == 104 && data[i + 2] == 97 && data[i + 3]
            == 105 && data[i + 4] == 110
    }

    /// Scan forward to the next header line (or the end of input).
    fn find_header(data: &Vec<u8>, from: usize) -> (r: usize)
        requires
            from <= data.len(),
        ensures
            r == spec_find_header(data@, from as int),
            from <= r <= data.len(),
    {
        proof {
            lemma_find_header_bounds(data@, from as int);
        }
        let ghost s = data@;
        let mut i: usize = from;
        loop
            invariant
                from <= i <= data.len(),
                s == data@,
                spec_find_header(s, from as int) == spec_find_header(s, i as int),
            decreases data.len() - i,
        {
            if i >= data.len() {
                return i;
            }
            if Self::is_header_line(data, i) {
                return i;
            }
            proof {
                lemma_next_line_bounds(s, i as int);
            }
            let le = line_end(data, i);
            let next = if le < data.len() {
                le + 1
            } else {
                data.len()
            };
            proof {
                assert(next as int == spec_next_line(s, i as int));
            }
            i = next;
        }
    }

    /// Yield the next record, or the error standing for the next damaged
    /// record, or nothing at the end of input. On a damaged record the
    /// reader discards input up to the next recognizable header line and
    /// resumes there.
    pub fn next(&mut self) -> (r: Option<Result<ChainRecord, ParseError>>)
        requires
            old(self).wf(),
        ensures
            final(self).wf(),
            final(self).data@ == old(self).data@,
            final(self).pos as int == spec_next(old(self).data@, old(self).pos as int).0,
            next_matches(r, spec_next(old(self).data@, old(self).pos as int).1),
            r matches Some(Ok(rec)) ==> record_wf(rec@) && header_wf(rec@.header),
    {
        let ghost s = self.data@;
        let ghost pos0 = self.pos as int;
        // move to the first non-blank line
        let mut i: usize = self.pos;
        loop
            invariant
                self.pos as int == pos0,
                self == old(self),
                pos0 <= i as int <= s.len(),
                s == self.data@,
                spec_skip_blanks(s, pos0) == spec_skip_blanks(s, i as int),
            ensures
                s == self.data@,
                self == old(self),
                i as int == spec_skip_blanks(s, pos0),
            decreases s.len() - i,
        {
            if i >= self.data.len() {
                break;
            }
            let le = line_end(&self.data, i);
            proof {
                lemma_line_end_bounds(s, i as int);
            }
            let toks = tokens_in(&self.data, i, le);
            if toks.len() > 0 {
                proof {
                    assert(toks.deep_view().len() == toks@.len());
                }
                break;
            }
            proof {
                assert(toks.deep_view().len() == toks@.len());
                lemma_next_line_bounds(s, i as int);
            }
            let next = if le < self.data.len() {
                le + 1
            } else {
                self.data.len()
            };
            proof {
                assert(next as int == spec_next_line(s, i as int));
            }
            i = next;
        }
        if i >= self.data.len() {
            self.pos = i;
            proof {
                lemma_skip_blanks_bounds(s, pos0);
            }
            return None;
        }
        // the line must open a record
        if !Self::is_header_line(&self.data, i) {
            proof {
                lemma_next_line_bounds(s, i as int);
            }
            let le = line_end(&self.data, i);
            let next = if le < self.data.len() {
                le + 1
            } else {
                self.data.len()
            };
            proof {
                assert(next as int == spec_next_line(s, i as int));
            }
            self.pos = Self::find_header(&self.data, next);
            return Some(Err(ParseError::BadHeader));
        }
        // read the header fields after the tag
        let le = line_end(&self.data, i);
        proof {
            lemma_line_end_bounds(s, i as int);
        }
        let toks_h = tokens_in(&self.data, i + 5, le);
        let header = match parse_header(&toks_h) {
            Ok(h) => h,
            Err(_) => {
                proof {
                    lemma_next_line_bounds(s, i as int);
                }
                let next = if le < self.data.len() {
                    le + 1
                } else {
                    self.data.len()
                };
                proof {
                    assert(next as int == spec_next_line(s, i as int));
                }
                self.pos = Self::find_header(&self.data, next);
                return Some(Err(ParseError::BadHeader));
            },
        };
        // read the block lines up to the next record or the end of input
        let first_block: usize = if le < self.data.len() {
            le + 1
        } else {
            self.data.len()
        };
        proof {
            assert(first_block as int == spec_next_line(s, i as int));
            lemma_next_line_bounds(s, i as int);
        }
        let mut raws: Vec<Alignment> = Vec::new();
        let mut j: usize = first_block;
        let ghost hv = header@;
        proof {
            assert(raws.deep_view() =~= Seq::<(int, int, int)>::empty());
            assert(spec_next(s, pos0) == spec_next_of_record(s, first_block as int, hv));
        }
        loop
            invariant
                self.pos as int == pos0,
                self == old(self),
                first_block as int <= j as int <= s.len(),
                s == self.data@,
                spec_next(s, pos0) == spec_next_of_record(s, first_block as int, hv),
                spec_collect_blocks(s, first_block as int) == {
                    let r = spec_collect_blocks(s, j as int);
                    match r.1 {
                        Some(rest) => (r.0, Some(raws.deep_view() + rest)),
                        None => r,
                    }
                },
            ensures
                s == self.data@,
                self == old(self),
                j <= s.len(),
                spec_collect_blocks(s, first_block as int) == (j as int, Some(raws.deep_view())),
            decreases s.len() - j,
        {
            if j >= self.data.len() {
                proof {
                    assert(spec_collect_blocks(s, j as int) == (s.len() as int, Some(Seq::<
                        (int, int, int),
                    >::empty())));
                    assert(raws.deep_view() + Seq::<(int, int, int)>::empty() =~= raws.deep_view());
                }
                break;
            }
            if Self::is_header_line(&self.data, j) {
                proof {
                    assert(spec_collect_blocks(s, j as int) == (j as int, Some(Seq::<
                        (int, int, int),
                    >::empty())));
                    assert(raws.deep_view() + Seq::<(int, int, int)>::empty() =~= raws.deep_view());
                }
                break;
            }
            let le2 = line_end(&self.data, j);
            proof {
                lemma_line_end_bounds(s, j as int);
                lemma_next_line_bounds(s, j as int);
            }
            let toks = tokens_in(&self.data, j, le2);
            let next = if le2 < self.data.len() {
                le2 + 1
            } else {
                self.data.len()
            };
            proof {
                assert(next as int == spec_next_line(s, j as int));
                assert(toks.deep_view().len() == toks@.len());
            }
            if toks.len() == 0 {
                j = next;
                continue;
            }
            match parse_block_line(&toks) {
                Ok(a) => {
                    let ghost raws0 = raws.deep_view();
                    raws.push(a);
                    proof {
                        assert(raws.deep_view() =~= raws0.push(a@));
                        let r = spec_collect_blocks(s, next as int);
                        if r.1 is Some {
                            assert((raws0 + (seq![a@] + r.1.unwrap())) =~= (raws0.push(a@)
                                + r.1.unwrap()));
                        }
                    }
                    j = next;
                },
                Err(_) => {
                    proof {
                        let lt = spec_tokens(s, j as int, spec_line_end(s, j as int));
                        assert(lt.len() != 0);
                        assert(spec_block_line(lt) == None::<(int, int, int)>);
                        let cb_j = spec_collect_blocks(s, j as int);
                        assert(cb_j == (
                            spec_find_header(s, next as int),
                            None::<Seq<(int, int, int)>>,
                        ));
                        assert(spec_collect_blocks(s, first_block as int) == cb_j);
                        assert(spec_next(s, pos0) == (
                            spec_find_header(s, next as int),
                            Some(Err::<RecordV, ParseError>(ParseError::BadBlock)),
                        ));
                    }
                    self.pos = Self::find_header(&self.data, next);
                    return Some(Err(ParseError::BadBlock));
                },
            }
        }
        if raws.len() == 0 {
            self.pos = j;
            proof {
                assert(raws.deep_view().len() == raws@.len());
            }
            return Some(Err(ParseError::BadBlock));
        }
        proof {
            assert(raws.deep_view().len() == raws@.len());
        }
        match derive_blocks(
            &header.query.name,
            header.query.size,
            header.query.strand,
            header.target.start,
            header.query.start,
            &raws,
        ) {
            Ok(v) => {
                self.pos = j;
                let rec = ChainRecord { header, block_ivls: v };
                proof {
                    let step = spec_next(s, pos0);
                    assert(step.1 == Some(Ok::<RecordV, ParseError>(rec@)));
                    assert forall|k: int| 0 <= k < rec@.blocks.len() implies block_ivl_wf(
                        #[trigger] rec@.blocks[k],
                    ) by {
                        assert(rec@.blocks[k] == rec.block_ivls@[k]@);
                    }
                }
                Some(Ok(rec))
            },
            Err(_) => {
                self.pos = j;
                Some(Err(ParseError::BadBlock))
            },
        }
    }
}

} // verus!
