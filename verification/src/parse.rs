//! The specification parser: turns the raw source form
//! `|name @ lo..hi, ...| -> ReturnType { Body }` into a validated list of
//! parameters plus the return-type and body fragments, or fails with a
//! location-tagged error. The return type and the body are captured as
//! opaque fragments and never interpreted.
//!
//! Deliberate narrowings of the accepted surface: range endpoints are
//! plain decimal literals (no hexadecimal, underscored or suffixed
//! forms), identifiers are ASCII, and a return-type fragment may not
//! contain an opening brace (the first `{` starts the body). Parameter
//! names are not checked for uniqueness: lookups are positional, so a
//! duplicated name only shadows as the source language would.

use vstd::prelude::*;
use vstd::slice::{slice_index_get, slice_subrange, slice_to_vec};

use crate::param::{Param, ParamModel, param_valid};
use crate::table::{params_valid, views_of};

verus! {

/// A generation-time diagnostic. Every variant carries the byte offset
/// into the source at which the offence stands.
#[derive(Debug, Clone, Copy, PartialEq, Eq, Structural)]
pub enum LutError {
    /// The input does not match the parameter-list / arrow / body grammar.
    Malformed { at: usize },
    /// A parameter uses a pattern form other than an identifier with an
    /// attached range.
    PatternShape { at: usize },
    /// A parameter identifier has no attached range; `at` points at the
    /// offending identifier.
    MissingRange { at: usize },
    /// A range endpoint is not an integer literal.
    NonLiteralBound { at: usize },
    /// A range endpoint does not fit the machine's index type.
    BoundTooLarge { at: usize },
    /// The lower bound exceeds the upper bound.
    InvertedRange { at: usize, lo: usize, hi: usize },
    /// An exclusive range whose bounds are equal: it holds no value.
    EmptyRange { at: usize, lo: usize },
    /// The table's total cell count does not fit the machine's index type.
    TableTooLarge,
}

/// Whitespace accepted between tokens of the source form.
pub open spec fn is_ws(c: u8) -> bool {
    c == 32 || c == 9 || c == 10 || c == 13
}

/// An ASCII decimal digit.
pub open spec fn is_digit(c: u8) -> bool {
    48 <= c <= 57
}

/// A byte that may open an identifier: a letter or an underscore.
pub open spec fn is_ident_start(c: u8) -> bool {
    (65 <= c <= 90) || (97 <= c <= 122) || c == 95
}

/// A byte that may continue an identifier.
pub open spec fn is_ident_char(c: u8) -> bool {
    is_ident_start(c) || is_digit(c)
}

/// First position at or after `i` that does not hold whitespace.
pub open spec fn sp_skip_ws(s: Seq<u8>, i: int) -> int
    decreases s.len() - i,
    when 0 <= i <= s.len()
{
    if i < s.len() && is_ws(s[i]) {
        sp_skip_ws(s, i + 1)
    } else {
        i
    }
}

/// First position at or after `i` that does not continue an identifier.
pub open spec fn sp_ident_end(s: Seq<u8>, i: int) -> int
    decreases s.len() - i,
    when 0 <= i <= s.len()
{
    if i < s.len() && is_ident_char(s[i]) {
        sp_ident_end(s, i + 1)
    } else {
        i
    }
}

/// First position at or after `i` that does not hold a digit.
pub open spec fn sp_digits_end(s: Seq<u8>, i: int) -> int
    decreases s.len() - i,
    when 0 <= i <= s.len()
{
    if i < s.len() && is_digit(s[i]) {
        sp_digits_end(s, i + 1)
    } else {
        i
    }
}

/// Base-ten value of the digit run `s[i .. j)`.
pub open spec fn sp_digits_val(s: Seq<u8>, i: int, j: int) -> int
    decreases j - i,
    when i <= j
{
    if i >= j {
        0
    } else {
        sp_digits_val(s, i, j - 1) * 10 + (s[j - 1] - 48)
    }
}

/// First position at or after `i` holding an opening brace, or the length
/// of the source when there is none.
pub open spec fn sp_find_open(s: Seq<u8>, i: int) -> int
    decreases s.len() - i,
    when 0 <= i <= s.len()
{
    if i >= s.len() {
        s.len() as int
    } else if s[i] == 123 {
        i
    } else {
        sp_find_open(s, i + 1)
    }
}

/// Largest end position at most `j` such that `s[i .. end)` does not end
/// in whitespace.
pub open spec fn sp_trim_end(s: Seq<u8>, i: int, j: int) -> int
    decreases j - i,
    when 0 <= i <= j <= s.len()
{
    if j > i && is_ws(s[j - 1]) {
        sp_trim_end(s, i, j - 1)
    } else {
        j
    }
}

/// Position just past the brace that closes `depth` open braces, scanning
/// from `i`, or -1 when the braces never balance.
pub open spec fn sp_body_end(s: Seq<u8>, i: int, depth: int) -> int
    decreases s.len() - i,
    when 0 <= i <= s.len()
{
    if i >= s.len() {
        -1
    } else if s[i] == 123 {
        sp_body_end(s, i + 1, depth + 1)
    } else if s[i] == 125 {
        if depth == 1 {
            i + 1
        } else {
            sp_body_end(s, i + 1, depth - 1)
        }
    } else {
        sp_body_end(s, i + 1, depth)
    }
}

pub proof fn lemma_skip_ws_bounds(s: Seq<u8>, i: int)
    requires
        0 <= i <= s.len(),
    ensures
        i <= sp_skip_ws(s, i) <= s.len(),
    decreases s.len() - i,
{
    if i < s.len() && is_ws(s[i]) {
        lemma_skip_ws_bounds(s, i + 1);
    }
}

pub proof fn lemma_ident_end_bounds(s: Seq<u8>, i: int)
    requires
        0 <= i <= s.len(),
    ensures
        i <= sp_ident_end(s, i) <= s.len(),
    decreases s.len() - i,
{
    if i < s.len() && is_ident_char(s[i]) {
        lemma_ident_end_bounds(s, i + 1);
    }
}

pub proof fn lemma_digits_end_bounds(s: Seq<u8>, i: int)
    requires
        0 <= i <= s.len(),
    ensures
        i <= sp_digits_end(s, i) <= s.len(),
        forall|k: int| i <= k < sp_digits_end(s, i) ==> is_digit(#[trigger] s[k]),
    decreases s.len() - i,
{
    if i < s.len() && is_digit(s[i]) {
        lemma_digits_end_bounds(s, i + 1);
    }
}

pub proof fn lemma_digits_val_nonneg(s: Seq<u8>, i: int, j: int)
    requires
        i <= j <= s.len(),
        forall|k: int| i <= k < j ==> is_digit(#[trigger] s[k]),
    ensures
        sp_digits_val(s, i, j) >= 0,
    decreases j - i,
{
    if i < j {
        lemma_digits_val_nonneg(s, i, j - 1);
    }
}

pub proof fn lemma_digits_val_mono(s: Seq<u8>, i: int, k: int, j: int)
    requires
        i <= k <= j <= s.len(),
        forall|m: int| i <= m < j ==> is_digit(#[trigger] s[m]),
    ensures
        sp_digits_val(s, i, j) >= sp_digits_val(s, i, k),
    decreases j - k,
{
    if k < j {
        lemma_digits_val_mono(s, i, k, j - 1);
        lemma_digits_val_nonneg(s, i, j - 1);
    }
}

pub proof fn lemma_body_end_bounds(s: Seq<u8>, i: int, depth: int)
    requires
        0 <= i <= s.len(),
    ensures
        sp_body_end(s, i, depth) == -1 || i < sp_body_end(s, i, depth) <= s.len(),
    decreases s.len() - i,
{
    if i < s.len() {
        if s[i] == 123 {
            lemma_body_end_bounds(s, i + 1, depth + 1);
        } else if s[i] == 125 {
            if depth != 1 {
                lemma_body_end_bounds(s, i + 1, depth - 1);
            }
        } else {
            lemma_body_end_bounds(s, i + 1, depth);
        }
    }
}

fn ws_byte(c: u8) -> (r: bool)
    ensures
        r == is_ws(c),
{
    c == 32 || c == 9 || c == 10 || c == 13
}

fn digit_byte(c: u8) -> (r: bool)
    ensures
        r == is_digit(c),
{
    48 <= c && c <= 57
}

fn ident_start_byte(c: u8) -> (r: bool)
    ensures
        r == is_ident_start(c),
{
    (65 <= c && c <= 90) || (97 <= c && c <= 122) || c == 95
}

fn ident_char_byte(c: u8) -> (r: bool)
    ensures
        r == is_ident_char(c),
{
    ident_start_byte(c) || digit_byte(c)
}

fn skip_ws(s: &[u8], i: usize) -> (r: usize)
    requires
        i <= s@.len(),
    ensures
        r == sp_skip_ws(s@, i as int),
        i <= r <= s@.len(),
    decreases s@.len() - i,
{
    if i < s.len() && ws_byte(*slice_index_get(s, i)) {
        skip_ws(s, i + 1)
    } else {
        i
    }
}

fn ident_end(s: &[u8], i: usize) -> (r: usize)
    requires
        i <= s@.len(),
    ensures
        r == sp_ident_end(s@, i as int),
        i <= r <= s@.len(),
    decreases s@.len() - i,
{
    if i < s.len() && ident_char_byte(*slice_index_get(s, i)) {
        ident_end(s, i + 1)
    } else {
        i
    }
}

fn digits_end(s: &[u8], i: usize) -> (r: usize)
    requires
        i <= s@.len(),
    ensures
        r == sp_digits_end(s@, i as int),
        i <= r <= s@.len(),
    decreases s@.len() - i,
{
    if i < s.len() && digit_byte(*slice_index_get(s, i)) {
        digits_end(s, i + 1)
    } else {
        i
    }
}

/// Base-ten value of the digit run `s[i .. j)`, or `None` when the value
/// does not fit the machine's index type.
fn digits_value(s: &[u8], i: usize, j: usize) -> (r: Option<usize>)
    requires
        i <= j <= s@.len(),
        forall|k: int| i <= k < j ==> is_digit(#[trigger] s@[k]),
    ensures
        match r {
            Some(v) => v == sp_digits_val(s@, i as int, j as int),
            None => sp_digits_val(s@, i as int, j as int) > usize::MAX,
        },
{
    let mut acc: u128 = 0;
    let mut k: usize = i;
    while k < j
        invariant
            i <= k <= j <= s@.len(),
            forall|m: int| i <= m < j ==> is_digit(#[trigger] s@[m]),
            acc <= usize::MAX,
            acc == sp_digits_val(s@, i as int, k as int),
        decreases j - k,
    {
        let d = *slice_index_get(s, k);
        proof {
            assert(is_digit(s@[k as int]));
        }
        let next: u128 = acc * 10 + (d - 48) as u128;
        proof {
            assert(next == sp_digits_val(s@, i as int, k as int + 1));
        }
        if next > usize::MAX as u128 {
            proof {
                lemma_digits_val_mono(s@, i as int, k as int + 1, j as int);
            }
            return None;
        }
        acc = next;
        k = k + 1;
    }
    Some(acc as usize)
}

fn find_open(s: &[u8], i: usize) -> (r: usize)
    requires
        i <= s@.len(),
    ensures
        r == sp_find_open(s@, i as int),
        i <= r <= s@.len(),
    decreases s@.len() - i,
{
    if i >= s.len() {
        s.len()
    } else if *slice_index_get(s, i) == 123 {
        i
    } else {
        find_open(s, i + 1)
    }
}

fn trim_end(s: &[u8], i: usize, j: usize) -> (r: usize)
    requires
        i <= j <= s@.len(),
    ensures
        r == sp_trim_end(s@, i as int, j as int),
        i <= r <= j,
    decreases j - i,
{
    if j > i && ws_byte(*slice_index_get(s, j - 1)) {
        trim_end(s, i, j - 1)
    } else {
        j
    }
}

fn body_end(s: &[u8], i: usize, depth: u128) -> (r: Option<usize>)
    requires
        i <= s@.len(),
        1 <= depth <= i,
    ensures
        match r {
            Some(e) => e == sp_body_end(s@, i as int, depth as int),
            None => sp_body_end(s@, i as int, depth as int) == -1,
        },
    decreases s@.len() - i,
{
    if i >= s.len() {
        None
    } else {
        let c = *slice_index_get(s, i);
        if c == 123 {
            body_end(s, i + 1, depth + 1)
        } else if c == 125 {
            if depth == 1 {
                proof {
                    lemma_body_end_bounds(s@, i as int, depth as int);
                }
                Some(i + 1)
            } else {
                body_end(s, i + 1, depth - 1)
            }
        } else {
            body_end(s, i + 1, depth)
        }
    }
}


/// Mathematical model of a parsed specification: the parameter models in
/// declared order and the two opaque fragments.
pub struct LutSpecModel {
    pub params: Seq<ParamModel>,
    pub return_type: Seq<u8>,
    pub body: Seq<u8>,
}

/// A parsed and validated generation request: the parameters in declared
/// order, the return-type fragment, and the body fragment (braces
/// included), both fragments carried verbatim.
pub struct LutSpec {
    /// The table's dimensions, in declared order.
    pub params: Vec<Param>,
    /// The return-type fragment, re-emitted unmodified.
    pub return_type: Vec<u8>,
    /// The body fragment, re-emitted unmodified.
    pub body: Vec<u8>,
}

impl View for LutSpec {
    type V = LutSpecModel;

    open spec fn view(&self) -> LutSpecModel {
        LutSpecModel {
            params: views_of(self.params@),
            return_type: self.return_type@,
            body: self.body@,
        }
    }
}

/// Parse one parameter at `i`: an identifier, `@`, and an attached range
/// `lo..hi` or `lo..=hi` with integer-literal endpoints, validated so that
/// the range holds at least one value. Returns the parameter's model and
/// the position just past its upper bound.
///
/// Classification of rejections: a parameter that does not open with an
/// identifier, the bare wildcard `_`, or an attached subpattern that is
/// not a range (a lone literal, a tuple) is a pattern-shape error at the
/// offending position; an endpoint that is a name, a call, or a float
/// literal is a non-literal-bound error at the endpoint.
pub open spec fn sp_parse_param(s: Seq<u8>, i: int) -> Result<(ParamModel, int), LutError> {
    let i0 = sp_skip_ws(s, i);
    if i0 >= s.len() || !is_ident_start(s[i0]) {
        Err(LutError::PatternShape { at: i0 as usize })
    } else {
        let name_end = sp_ident_end(s, i0);
        if name_end == i0 + 1 && s[i0] == 95 {
            Err(LutError::PatternShape { at: i0 as usize })
        } else {
            let i1 = sp_skip_ws(s, name_end);
            if i1 >= s.len() || s[i1] != 64 {
                Err(LutError::MissingRange { at: i0 as usize })
            } else {
                let i2 = sp_skip_ws(s, i1 + 1);
                if i2 >= s.len() || is_ident_start(s[i2]) {
                    Err(LutError::NonLiteralBound { at: i2 as usize })
                } else if !is_digit(s[i2]) {
                    Err(LutError::PatternShape { at: i2 as usize })
                } else {
                    let lo_end = sp_digits_end(s, i2);
                    if lo_end < s.len() && s[lo_end] == 46 && (lo_end + 1 >= s.len() || s[lo_end
                        + 1] != 46) {
                        Err(LutError::NonLiteralBound { at: i2 as usize })
                    } else {
                        let lo = sp_digits_val(s, i2, lo_end);
                        if lo > usize::MAX {
                            Err(LutError::BoundTooLarge { at: i2 as usize })
                        } else {
                            let i3 = sp_skip_ws(s, lo_end);
                            if !(i3 + 1 < s.len() && s[i3] == 46 && s[i3 + 1] == 46) {
                                Err(LutError::PatternShape { at: i2 as usize })
                            } else {
                                let exclusive = !(i3 + 2 < s.len() && s[i3 + 2] == 61);
                                let i4 = if exclusive {
                                    i3 + 2
                                } else {
                                    i3 + 3
                                };
                                let i5 = sp_skip_ws(s, i4);
                                if i5 >= s.len() || !is_digit(s[i5]) {
                                    Err(LutError::NonLiteralBound { at: i5 as usize })
                                } else {
                                    let hi_end = sp_digits_end(s, i5);
                                    if hi_end < s.len() && s[hi_end] == 46 && (hi_end + 1
                                        >= s.len() || s[hi_end + 1] != 46) {
                                        Err(LutError::NonLiteralBound { at: i5 as usize })
                                    } else {
                                        let hi = sp_digits_val(s, i5, hi_end);
                                        if hi > usize::MAX {
                                            Err(LutError::BoundTooLarge { at: i5 as usize })
                                        } else if hi < lo {
                                            Err(LutError::InvertedRange {
                                                at: i2 as usize,
                                                lo: lo as usize,
                                                hi: hi as usize,
                                            })
                                        } else if exclusive && hi == lo {
                                            Err(LutError::EmptyRange {
                                                at: i2 as usize,
                                                lo: lo as usize,
                                            })
                                        } else {
                                            Ok(
                                                (
                                                    ParamModel {
                                                        name: s.subrange(i0, name_end),
                                                        lo: lo,
                                                        hi: hi,
                                                        exclusive_end: exclusive,
                                                    },
                                                    hi_end,
                                                ),
                                            )
                                        }
                                    }
                                }
                            }
                        }
                    }
                }
            }
        }
    }
}

/// A successfully parsed parameter is valid and the parse consumed at
/// least one byte.
pub proof fn lemma_parse_param_ok(s: Seq<u8>, i: int)
    requires
        0 <= i <= s.len(),
    ensures
        match sp_parse_param(s, i) {
            Ok((p, j)) => i < j <= s.len() && param_valid(p) && p.name.len() >= 1,
            Err(_) => true,
        },
{
    let i0 = sp_skip_ws(s, i);
    lemma_skip_ws_bounds(s, i);
    if i0 < s.len() && is_ident_start(s[i0]) {
        let name_end = sp_ident_end(s, i0);
        lemma_ident_end_bounds(s, i0);
        assert(sp_ident_end(s, i0) == sp_ident_end(s, i0 + 1));
        lemma_ident_end_bounds(s, i0 + 1);
        let i1 = sp_skip_ws(s, name_end);
        lemma_skip_ws_bounds(s, name_end);
        if i1 < s.len() && s[i1] == 64 {
            let i2 = sp_skip_ws(s, i1 + 1);
            lemma_skip_ws_bounds(s, i1 + 1);
            if i2 < s.len() && !is_ident_start(s[i2]) && is_digit(s[i2]) {
                let lo_end = sp_digits_end(s, i2);
                lemma_digits_end_bounds(s, i2);
                assert(sp_digits_end(s, i2) == sp_digits_end(s, i2 + 1));
                lemma_digits_end_bounds(s, i2 + 1);
                let lo = sp_digits_val(s, i2, lo_end);
                lemma_digits_val_nonneg(s, i2, lo_end);
                if lo <= usize::MAX {
                    let i3 = sp_skip_ws(s, lo_end);
                    lemma_skip_ws_bounds(s, lo_end);
                    if i3 + 1 < s.len() && s[i3] == 46 && s[i3 + 1] == 46 {
                        let exclusive = !(i3 + 2 < s.len() && s[i3 + 2] == 61);
                        let i4 = if exclusive {
                            i3 + 2
                        } else {
                            i3 + 3
                        };
                        let i5 = sp_skip_ws(s, i4);
                        lemma_skip_ws_bounds(s, i4);
                        if i5 < s.len() && is_digit(s[i5]) {
                            let hi_end = sp_digits_end(s, i5);
                            lemma_digits_end_bounds(s, i5);
                            assert(sp_digits_end(s, i5) == sp_digits_end(s, i5 + 1));
                            lemma_digits_end_bounds(s, i5 + 1);
                        }
                    }
                }
            }
        }
    }
}

/// Parse the comma-separated parameter list up to, but not including, the
/// closing bar. Tolerates a trailing comma before the bar. Returns the
/// parameter models in declared order and the closing bar's position.
pub open spec fn sp_parse_params(s: Seq<u8>, i: int) -> Result<(Seq<ParamModel>, int), LutError>
    decreases s.len() - i,
    when 0 <= i <= s.len()
    via sp_parse_params_dec
{
    let j = sp_skip_ws(s, i);
    if j >= s.len() {
        Err(LutError::Malformed { at: j as usize })
    } else if s[j] == 124 {
        Ok((Seq::empty(), j))
    } else {
        match sp_parse_param(s, i) {
            Err(e) => Err(e),
            Ok((p, k)) => {
                let m = sp_skip_ws(s, k);
                if m >= s.len() {
                    Err(LutError::Malformed { at: m as usize })
                } else if s[m] == 124 {
                    Ok((seq![p], m))
                } else if s[m] == 44 {
                    match sp_parse_params(s, m + 1) {
                        Err(e) => Err(e),
                        Ok((ps, end)) => Ok((seq![p] + ps, end)),
                    }
                } else {
                    Err(LutError::Malformed { at: m as usize })
                }
            },
        }
    }
}

#[via_fn]
proof fn sp_parse_params_dec(s: Seq<u8>, i: int) {
    lemma_skip_ws_bounds(s, i);
    lemma_parse_param_ok(s, i);
    match sp_parse_param(s, i) {
        Ok((p, k)) => {
            lemma_skip_ws_bounds(s, k);
        },
        Err(_) => {},
    }
}

/// A successfully parsed parameter list holds only valid parameters and
/// stops on the closing bar.
pub proof fn lemma_parse_params_ok(s: Seq<u8>, i: int)
    requires
        0 <= i <= s.len(),
    ensures
        match sp_parse_params(s, i) {
            Ok((ps, j)) => i <= j < s.len() && s[j] == 124 && params_valid(ps),
            Err(_) => true,
        },
    decreases s.len() - i,
{
    let j = sp_skip_ws(s, i);
    lemma_skip_ws_bounds(s, i);
    if j < s.len() && s[j] != 124 {
        lemma_parse_param_ok(s, i);
        match sp_parse_param(s, i) {
            Err(_) => {},
            Ok((p, k)) => {
                let m = sp_skip_ws(s, k);
                lemma_skip_ws_bounds(s, k);
                if m < s.len() && s[m] != 124 && s[m] == 44 {
                    lemma_parse_params_ok(s, m + 1);
                    match sp_parse_params(s, m + 1) {
                        Err(_) => {},
                        Ok((ps, end)) => {
                            assert forall|kk: int| 0 <= kk < (seq![p] + ps).len() implies
                                param_valid(#[trigger] (seq![p] + ps)[kk]) by {
                                if kk > 0 {
                                    assert((seq![p] + ps)[kk] == ps[kk - 1]);
                                }
                            }
                        },
                    }
                }
            },
        }
    }
}

/// Parse a whole generation request: a bar-delimited parameter list, an
/// arrow, a return-type fragment running up to the body's opening brace,
/// and a brace-balanced body fragment, with nothing but whitespace after
/// it.
pub open spec fn sp_parse(s: Seq<u8>) -> Result<LutSpecModel, LutError> {
    let i0 = sp_skip_ws(s, 0);
    if i0 >= s.len() || s[i0] != 124 {
        Err(LutError::Malformed { at: i0 as usize })
    } else {
        match sp_parse_params(s, i0 + 1) {
            Err(e) => Err(e),
            Ok((params, bar)) => {
                let i1 = sp_skip_ws(s, bar + 1);
                if !(i1 + 1 < s.len() && s[i1] == 45 && s[i1 + 1] == 62) {
                    Err(LutError::Malformed { at: i1 as usize })
                } else {
                    let i2 = sp_skip_ws(s, i1 + 2);
                    let open = sp_find_open(s, i2);
                    if open >= s.len() {
                        Err(LutError::Malformed { at: i2 as usize })
                    } else {
                        let rt_end = sp_trim_end(s, i2, open);
                        if rt_end <= i2 {
                            Err(LutError::Malformed { at: i2 as usize })
                        } else {
                            let bend = sp_body_end(s, open + 1, 1);
                            if bend < 0 {
                                Err(LutError::Malformed { at: open as usize })
                            } else {
                                let tail = sp_skip_ws(s, bend);
                                if tail != s.len() {
                                    Err(LutError::Malformed { at: tail as usize })
                                } else {
                                    Ok(
                                        LutSpecModel {
                                            params: params,
                                            return_type: s.subrange(i2, rt_end),
                                            body: s.subrange(open, bend),
                                        },
                                    )
                                }
                            }
                        }
                    }
                }
            },
        }
    }
}

/// Whatever parses successfully holds only valid parameters: the range
/// checks are part of parsing, so no further validation is owed before
/// the table is built.
pub proof fn lemma_parse_ok_valid(s: Seq<u8>)
    ensures
        match sp_parse(s) {
            Ok(m) => params_valid(m.params),
            Err(_) => true,
        },
{
    let i0 = sp_skip_ws(s, 0);
    lemma_skip_ws_bounds(s, 0);
    if i0 < s.len() && s[i0] == 124 {
        lemma_parse_params_ok(s, i0 + 1);
    }
}


/// Parse one parameter, mirroring `sp_parse_param` exactly.
fn parse_param(s: &[u8], i: usize) -> (r: Result<(Param, usize), LutError>)
    requires
        i <= s@.len(),
    ensures
        match r {
            Ok((p, j)) => sp_parse_param(s@, i as int) == Ok::<(ParamModel, int), LutError>(
                (p@, j as int),
            ) && i < j <= s@.len(),
            Err(e) => sp_parse_param(s@, i as int) == Err::<(ParamModel, int), LutError>(e),
        },
{
    proof {
        lemma_parse_param_ok(s@, i as int);
    }
    let i0 = skip_ws(s, i);
    if i0 >= s.len() || !ident_start_byte(*slice_index_get(s, i0)) {
        return Err(LutError::PatternShape { at: i0 });
    }
    let name_end = ident_end(s, i0);
    if name_end == i0 + 1 && *slice_index_get(s, i0) == 95 {
        return Err(LutError::PatternShape { at: i0 });
    }
    let name = slice_to_vec(slice_subrange(s, i0, name_end));
    let i1 = skip_ws(s, name_end);
    if i1 >= s.len() || *slice_index_get(s, i1) != 64 {
        return Err(LutError::MissingRange { at: i0 });
    }
    let i2 = skip_ws(s, i1 + 1);
    if i2 >= s.len() || ident_start_byte(*slice_index_get(s, i2)) {
        return Err(LutError::NonLiteralBound { at: i2 });
    }
    if !digit_byte(*slice_index_get(s, i2)) {
        return Err(LutError::PatternShape { at: i2 });
    }
    let lo_end = digits_end(s, i2);
    if lo_end < s.len() && *slice_index_get(s, lo_end) == 46 && (lo_end + 1 >= s.len()
        || *slice_index_get(s, lo_end + 1) != 46) {
        return Err(LutError::NonLiteralBound { at: i2 });
    }
    proof {
        lemma_digits_end_bounds(s@, i2 as int);
    }
    let lo = match digits_value(s, i2, lo_end) {
        Some(v) => v,
        None => {
            return Err(LutError::BoundTooLarge { at: i2 });
        },
    };
    let i3 = skip_ws(s, lo_end);
    if !(i3 < s.len() && i3 + 1 < s.len() && *slice_index_get(s, i3) == 46 && *slice_index_get(
        s,
        i3 + 1,
    ) == 46) {
        return Err(LutError::PatternShape { at: i2 });
    }
    let exclusive = !(i3 + 2 < s.len() && *slice_index_get(s, i3 + 2) == 61);
    let i4 = if exclusive {
        i3 + 2
    } else {
        i3 + 3
    };
    let i5 = skip_ws(s, i4);
    if i5 >= s.len() || !digit_byte(*slice_index_get(s, i5)) {
        return Err(LutError::NonLiteralBound { at: i5 });
    }
    let hi_end = digits_end(s, i5);
    if hi_end < s.len() && *slice_index_get(s, hi_end) == 46 && (hi_end + 1 >= s.len()
        || *slice_index_get(s, hi_end + 1) != 46) {
        return Err(LutError::NonLiteralBound { at: i5 });
    }
    proof {
        lemma_digits_end_bounds(s@, i5 as int);
    }
    let hi = match digits_value(s, i5, hi_end) {
        Some(v) => v,
        None => {
            return Err(LutError::BoundTooLarge { at: i5 });
        },
    };
    if hi < lo {
        return Err(LutError::InvertedRange { at: i2, lo: lo, hi: hi });
    }
    if exclusive && hi == lo {
        return Err(LutError::EmptyRange { at: i2, lo: lo });
    }
    let p = Param { name: name, lo: lo, hi: hi, exclusive_end: exclusive };
    Ok((p, hi_end))
}

/// Parse the parameter list, mirroring `sp_parse_params` exactly.
fn parse_params(s: &[u8], i: usize) -> (r: Result<(Vec<Param>, usize), LutError>)
    requires
        i <= s@.len(),
    ensures
        match r {
            Ok((ps, j)) => sp_parse_params(s@, i as int) == Ok::<(Seq<ParamModel>, int), LutError>(
                (views_of(ps@), j as int),
            ) && i <= j < s@.len(),
            Err(e) => sp_parse_params(s@, i as int) == Err::<(Seq<ParamModel>, int), LutError>(e),
        },
    decreases s@.len() - i,
{
    let j = skip_ws(s, i);
    if j >= s.len() {
        return Err(LutError::Malformed { at: j });
    }
    if *slice_index_get(s, j) == 124 {
        let ps: Vec<Param> = Vec::new();
        proof {
            assert(views_of(ps@) =~= Seq::<ParamModel>::empty());
        }
        return Ok((ps, j));
    }
    match parse_param(s, i) {
        Err(e) => Err(e),
        Ok((p, k)) => {
            let m = skip_ws(s, k);
            if m >= s.len() {
                return Err(LutError::Malformed { at: m });
            }
            let c = *slice_index_get(s, m);
            if c == 124 {
                let mut ps: Vec<Param> = Vec::new();
                ps.push(p);
                proof {
                    assert(views_of(ps@) =~= seq![ps@[0]@]);
                }
                Ok((ps, m))
            } else if c == 44 {
                match parse_params(s, m + 1) {
                    Err(e) => Err(e),
                    Ok((rest, end)) => {
                        let ghost rest_views = views_of(rest@);
                        let mut ps = rest;
                        ps.insert(0, p);
                        proof {
                            assert(views_of(ps@) =~= seq![p@] + rest_views);
                        }
                        Ok((ps, end))
                    },
                }
            } else {
                Err(LutError::Malformed { at: m })
            }
        },
    }
}

/// Parse and validate a whole generation request. The result is exactly
/// what the mathematical parser `sp_parse` yields on the same bytes: on
/// success a specification whose view equals the parsed model, otherwise
/// the same location-tagged error.
pub fn parse(s: &[u8]) -> (r: Result<LutSpec, LutError>)
    ensures
        match r {
            Ok(ls) => sp_parse(s@) == Ok::<LutSpecModel, LutError>(ls@) && params_valid(
                ls@.params,
            ),
            Err(e) => sp_parse(s@) == Err::<LutSpecModel, LutError>(e),
        },
{
    proof {
        lemma_parse_ok_valid(s@);
    }
    let i0 = skip_ws(s, 0);
    if i0 >= s.len() || *slice_index_get(s, i0) != 124 {
        return Err(LutError::Malformed { at: i0 });
    }
    match parse_params(s, i0 + 1) {
        Err(e) => Err(e),
        Ok((params, bar)) => {
            let i1 = skip_ws(s, bar + 1);
            if !(i1 < s.len() && i1 + 1 < s.len() && *slice_index_get(s, i1) == 45
                && *slice_index_get(s, i1 + 1) == 62) {
                return Err(LutError::Malformed { at: i1 });
            }
            let i2 = skip_ws(s, i1 + 2);
            let open = find_open(s, i2);
            if open >= s.len() {
                return Err(LutError::Malformed { at: i2 });
            }
            let rt_end = trim_end(s, i2, open);
            if rt_end <= i2 {
                return Err(LutError::Malformed { at: i2 });
            }
            let bend = match body_end(s, open + 1, 1) {
                None => {
                    return Err(LutError::Malformed { at: open });
                },
                Some(e) => e,
            };
            proof {
                lemma_body_end_bounds(s@, open as int + 1, 1);
            }
            let tail = skip_ws(s, bend);
            if tail != s.len() {
                return Err(LutError::Malformed { at: tail });
            }
            let ls = LutSpec {
                params: params,
                return_type: slice_to_vec(slice_subrange(s, i2, rt_end)),
                body: slice_to_vec(slice_subrange(s, open, bend)),
            };
            Ok(ls)
        },
    }
}

} // verus!
