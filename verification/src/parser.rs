//! The crontab parser: lines of text into validated job descriptors.
//!
//! Five whitespace-separated fields (minute, hour, day-of-month, month,
//! day-of-week), each a comma-separated mix of `*`, `*/N` steps, `N-M`
//! ranges and single values; `@reboot <command>` startup lines; and named
//! shorthands such as `@daily`. Errors carry the zero-based line number, the
//! offending token and an enumerated kind, so an embedding context can
//! report them without terminating the process.

use vstd::prelude::*;

use crate::entry::CronEntry;
use crate::expr::CronExpr;
use crate::expr::CronInterval;
use crate::expr::CronUnit;

verus! {

/// Why a crontab failed to parse.
#[derive(Clone, Debug, PartialEq, Eq, Structural)]
pub enum ParseErrorKind {
    /// A `@reboot` or shorthand line with nothing to run after the predicate.
    MissingCommand,
    /// An unknown `@` scheduling shorthand.
    UnknownSchedule,
    /// A field token that is not a (bounded) decimal integer.
    NotAnInteger,
    /// A value outside its unit's fixed range.
    OutOfBounds,
    /// A range whose start equals or exceeds its stop.
    InvalidRange,
    /// A step of zero in a `*/N` expression.
    ZeroStep,
    /// A `*/N` expression that selects no value of the unit's range.
    EmptyInterval,
    /// A line with fewer than five fields.
    MissingField,
}

/// A line-numbered parse diagnostic.
#[derive(Clone, Debug)]
pub struct ParseError {
    /// Zero-based index of the offending line.
    pub line: usize,
    /// The offending token, as it stood in the line.
    pub token: String,
    pub kind: ParseErrorKind,
}

/// Is the character an ASCII decimal digit?
pub open spec fn spec_is_digit(c: char) -> bool {
    48 <= c as u32 <= 57
}

pub open spec fn spec_all_digits(s: Seq<char>) -> bool {
    forall|i: int| 0 <= i < s.len() ==> spec_is_digit(#[trigger] s[i])
}

/// The number the digit sequence denotes.
pub open spec fn spec_digits_val(s: Seq<char>) -> int
    decreases s.len(),
{
    if s.len() == 0 {
        0
    } else {
        spec_digits_val(s.drop_last()) * 10 + (s.last() as u32 - 48)
    }
}

proof fn lemma_digits_val_nonneg(s: Seq<char>)
    requires
        spec_all_digits(s),
    ensures
        spec_digits_val(s) >= 0,
    decreases s.len(),
{
    if s.len() > 0 {
        assert(spec_all_digits(s.drop_last()));
        lemma_digits_val_nonneg(s.drop_last());
    }
}

/// Appending digits never decreases the denoted number.
proof fn lemma_digits_val_prefix_le(s: Seq<char>, i: int)
    requires
        spec_all_digits(s),
        0 <= i <= s.len(),
    ensures
        spec_digits_val(s.subrange(0, i)) <= spec_digits_val(s),
    decreases s.len() - i,
{
    if i < s.len() {
        lemma_digits_val_prefix_le(s, i + 1);
        let a = s.subrange(0, i);
        let b = s.subrange(0, i + 1);
        assert(b.drop_last() =~= a);
        assert(spec_all_digits(a));
        lemma_digits_val_nonneg(a);
        assert(spec_digits_val(b) == spec_digits_val(a) * 10 + (b.last() as u32 - 48));
    } else {
        assert(s.subrange(0, i) =~= s);
    }
}

/// A decimal token: non-empty, all digits, and a value that fits in `u32`.
pub open spec fn spec_numeric(s: Seq<char>) -> bool {
    s.len() > 0 && spec_all_digits(s) && spec_digits_val(s) <= u32::MAX
}

/// Index of the first occurrence of the character, or the length if absent.
pub open spec fn spec_find(s: Seq<char>, c: char) -> int
    decreases s.len(),
{
    if s.len() == 0 {
        0
    } else if s[0] == c {
        0
    } else {
        1 + spec_find(s.skip(1), c)
    }
}

/// A scan that saw no occurrence before `p`, and one at `p` unless `p` is
/// the end, has found the first occurrence.
proof fn lemma_find_at(s: Seq<char>, c: char, p: int)
    requires
        0 <= p <= s.len(),
        forall|k: int| 0 <= k < p ==> s[k] != c,
        p == s.len() || s[p] == c,
    ensures
        spec_find(s, c) == p,
    decreases p,
{
    if p > 0 {
        assert(s[0] != c);
        let t = s.skip(1);
        assert forall|k: int| 0 <= k < p - 1 implies t[k] != c by {
            assert(t[k] == s[k + 1]);
        }
        if p < s.len() {
            assert(t[p - 1] == s[p]);
        }
        lemma_find_at(t, c, p - 1);
    } else {
        if s.len() > 0 {
            assert(s[0] == c);
        }
    }
}

/// The multiples of `n` in `[lo, hi)`, ascending. The upper bound is
/// exclusive: a step expression never selects the unit's maximum itself.
pub open spec fn spec_step_values(lo: u32, hi: int, n: u32) -> Seq<u32>
    decreases hi,
{
    if hi <= lo {
        Seq::empty()
    } else {
        let prev = spec_step_values(lo, hi - 1, n);
        if ((hi - 1) as u32) % n == 0 {
            prev.push((hi - 1) as u32)
        } else {
            prev
        }
    }
}

proof fn lemma_step_values_bounds(lo: u32, hi: int, n: u32)
    requires
        lo <= hi <= u32::MAX + 1,
    ensures
        forall|k: int|
            0 <= k < spec_step_values(lo, hi, n).len() ==> lo <= #[trigger] spec_step_values(
                lo,
                hi,
                n,
            )[k] < hi,
    decreases hi,
{
    if hi > lo {
        lemma_step_values_bounds(lo, hi - 1, n);
        let prev = spec_step_values(lo, hi - 1, n);
        let cur = spec_step_values(lo, hi, n);
        assert forall|k: int| 0 <= k < cur.len() implies lo <= #[trigger] cur[k] < hi by {
            if ((hi - 1) as u32) % n == 0 {
                assert(cur == prev.push((hi - 1) as u32));
                if k < prev.len() {
                    assert(cur[k] == prev[k]);
                } else {
                    assert(cur[k] == (hi - 1) as u32);
                }
            } else {
                assert(cur == prev);
            }
        }
    }
}

/// The values `lo..=hi`, ascending; empty when `hi < lo`.
pub open spec fn spec_range_values(lo: u32, hi: int) -> Seq<u32>
    decreases hi - lo + 1,
{
    if hi < lo {
        Seq::empty()
    } else {
        spec_range_values(lo, hi - 1).push(hi as u32)
    }
}

proof fn lemma_range_values_bounds(lo: u32, hi: int)
    requires
        hi <= u32::MAX,
    ensures
        spec_range_values(lo, hi).len() == if hi < lo {
            0
        } else {
            hi - lo + 1
        },
        forall|k: int|
            0 <= k < spec_range_values(lo, hi).len() ==> lo <= #[trigger] spec_range_values(
                lo,
                hi,
            )[k] <= hi,
    decreases hi - lo + 1,
{
    if hi >= lo {
        lemma_range_values_bounds(lo, hi - 1);
        let prev = spec_range_values(lo, hi - 1);
        let cur = spec_range_values(lo, hi);
        assert(cur == prev.push(hi as u32));
        assert forall|k: int| 0 <= k < cur.len() implies lo <= #[trigger] cur[k] <= hi by {
            if k < prev.len() {
                assert(cur[k] == prev[k]);
            } else {
                assert(cur[k] == hi as u32);
            }
        }
    }
}

/// The exact outcome of one comma-free field token, in the grammar's branch
/// order: `*`, then `*/N`, then `a-b`, then a single decimal value.
pub open spec fn spec_single_token(
    seg: Seq<char>,
    min: u32,
    max: u32,
    r: Result<CronInterval, ParseErrorKind>,
) -> bool {
    if seg == seq!['*'] {
        r matches Ok(iv) && iv is Every
    } else if seg.len() >= 2 && seg[0] == '*' && seg[1] == '/' {
        spec_step_token(seg.skip(2), min, max, r)
    } else if spec_find(seg, '-') < seg.len() {
        spec_range_token(seg, min, max, r)
    } else {
        spec_value_token(seg, min, max, r)
    }
}

/// The outcome of `*/N` with `num` the step's digits.
pub open spec fn spec_step_token(
    num: Seq<char>,
    min: u32,
    max: u32,
    r: Result<CronInterval, ParseErrorKind>,
) -> bool {
    if !spec_numeric(num) {
        r matches Err(k) && k is NotAnInteger
    } else if spec_digits_val(num) == 0 {
        r matches Err(k) && k is ZeroStep
    } else if spec_step_values(min, max as int, spec_digits_val(num) as u32).len() == 0 {
        r matches Err(k) && k is EmptyInterval
    } else {
        r matches Ok(iv) && iv matches CronInterval::Multiple(vs) && vs@ == spec_step_values(
            min,
            max as int,
            spec_digits_val(num) as u32,
        )
    }
}

/// The outcome of a token holding a range separator: the start reaches the
/// first separator, the stop the next one (anything further is ignored).
pub open spec fn spec_range_token(
    seg: Seq<char>,
    min: u32,
    max: u32,
    r: Result<CronInterval, ParseErrorKind>,
) -> bool {
    let p = spec_find(seg, '-');
    let apart = seg.subrange(0, p);
    let rest = seg.skip(p + 1);
    let bpart = rest.subrange(0, spec_find(rest, '-'));
    if !spec_numeric(apart) || !spec_numeric(bpart) {
        r matches Err(k) && k is NotAnInteger
    } else {
        let a = spec_digits_val(apart);
        let b = spec_digits_val(bpart);
        if !(min <= a <= max) || !(min <= b <= max) {
            r matches Err(k) && k is OutOfBounds
        } else if a >= b {
            r matches Err(k) && k is InvalidRange
        } else {
            r matches Ok(iv) && iv matches CronInterval::Multiple(vs) && vs@ == spec_range_values(
                a as u32,
                b,
            )
        }
    }
}

/// The outcome of a single decimal value token.
pub open spec fn spec_value_token(
    seg: Seq<char>,
    min: u32,
    max: u32,
    r: Result<CronInterval, ParseErrorKind>,
) -> bool {
    if !spec_numeric(seg) {
        r matches Err(k) && k is NotAnInteger
    } else if !(min <= spec_digits_val(seg) <= max) {
        r matches Err(k) && k is OutOfBounds
    } else {
        r matches Ok(iv) && iv matches CronInterval::Multiple(vs) && vs@ == seq![
            spec_digits_val(seg) as u32,
        ]
    }
}

/// What the collected values must be once a comma-free token's segment has
/// been processed without an early error return.
pub open spec fn spec_token_final(seg: Seq<char>, min: u32, max: u32, pts: Seq<u32>) -> bool {
    if seg == seq!['*'] {
        false
    } else if seg.len() >= 2 && seg[0] == '*' && seg[1] == '/' {
        let num = seg.skip(2);
        &&& spec_numeric(num)
        &&& spec_digits_val(num) > 0
        &&& pts == spec_step_values(min, max as int, spec_digits_val(num) as u32)
    } else if spec_find(seg, '-') < seg.len() {
        let p = spec_find(seg, '-');
        let apart = seg.subrange(0, p);
        let rest = seg.skip(p + 1);
        let bpart = rest.subrange(0, spec_find(rest, '-'));
        &&& spec_numeric(apart)
        &&& spec_numeric(bpart)
        &&& min <= spec_digits_val(apart) <= max
        &&& min <= spec_digits_val(bpart) <= max
        &&& spec_digits_val(apart) < spec_digits_val(bpart)
        &&& pts == spec_range_values(spec_digits_val(apart) as u32, spec_digits_val(bpart))
    } else {
        &&& spec_numeric(seg)
        &&& min <= spec_digits_val(seg) <= max
        &&& pts == seq![spec_digits_val(seg) as u32]
    }
}

/// The characters of a string, in order.
#[verifier::loop_isolation(false)]
fn to_chars(s: &str) -> (r: Vec<char>)
    ensures
        r@ == s@,
{
    let n = s.unicode_len();
    let mut r: Vec<char> = Vec::new();
    let mut i: usize = 0;
    while i < n
        invariant
            i <= n,
            r@ =~= s@.subrange(0, i as int),
        decreases n - i,
    {
        r.push(s.get_char(i));
        i += 1;
    }
    proof {
        assert(r@ =~= s@);
    }
    r
}

/// Does the character range equal the given literal?
#[verifier::loop_isolation(false)]
fn range_eq_str(chars: &Vec<char>, s: usize, e: usize, lit: &str) -> (r: bool)
    requires
        s <= e <= chars@.len(),
    ensures
        r == (chars@.subrange(s as int, e as int) =~= lit@),
{
    let n = lit.unicode_len();
    if e - s != n {
        proof {
            assert(chars@.subrange(s as int, e as int).len() != lit@.len());
        }
        return false;
    }
    let mut i: usize = 0;
    while i < n
        invariant
            i <= n,
            forall|k: int| 0 <= k < i ==> chars@.subrange(s as int, e as int)[k] == lit@[k],
        decreases n - i,
    {
        if chars[s + i] != lit.get_char(i) {
            proof {
                assert(chars@.subrange(s as int, e as int)[i as int] != lit@[i as int]);
            }
            return false;
        }
        i += 1;
    }
    proof {
        assert(chars@.subrange(s as int, e as int) =~= lit@);
    }
    true
}

/// Parse the character range as a decimal `u32`. Succeeds exactly on a
/// non-empty, all-digit range whose value fits, and then returns that value.
#[verifier::loop_isolation(false)]
fn parse_u32(chars: &Vec<char>, from: usize, to: usize) -> (r: Option<u32>)
    requires
        from <= to <= chars@.len(),
    ensures
        ({
            let s = chars@.subrange(from as int, to as int);
            match r {
                Some(n) => from < to && spec_all_digits(s) && n == spec_digits_val(s),
                None => !(from < to && spec_all_digits(s) && spec_digits_val(s) <= u32::MAX),
            }
        }),
{
    let ghost s = chars@.subrange(from as int, to as int);
    if from == to {
        return None;
    }
    let mut val: u64 = 0;
    let mut i: usize = from;
    while i < to
        invariant
            from <= i <= to,
            spec_all_digits(s.subrange(0, i - from)),
            val == spec_digits_val(s.subrange(0, i - from)),
            val <= u32::MAX,
        decreases to - i,
    {
        let c = chars[i];
        let cv = c as u32;
        if cv < 48 || cv > 57 {
            proof {
                assert(s[i - from] == c);
                assert(!spec_is_digit(s[i - from]));
            }
            return None;
        }
        let d = cv - 48;
        proof {
            let pre = s.subrange(0, i - from);
            let nxt = s.subrange(0, i - from + 1);
            assert(nxt.drop_last() =~= pre);
            assert(nxt.last() == c);
        }
        val = val * 10 + d as u64;
        i += 1;
        if val > u32::MAX as u64 {
            proof {
                if spec_all_digits(s) {
                    lemma_digits_val_prefix_le(s, i - from);
                }
            }
            return None;
        }
    }
    proof {
        assert(s.subrange(0, (to - from) as int) =~= s);
    }
    Some(val as u32)
}

/// Insert a value into a strictly ascending vector, keeping it strictly
/// ascending; a value already present is left alone.
#[verifier::loop_isolation(false)]
fn insert_sorted_unique(vec: &mut Vec<u32>, v: u32)
    requires
        forall|i: int, j: int| 0 <= i < j < old(vec)@.len() ==> old(vec)@[i] < old(vec)@[j],
    ensures
        forall|i: int, j: int| 0 <= i < j < final(vec)@.len() ==> final(vec)@[i] < final(vec)@[j],
        final(vec)@.contains(v),
        forall|x: u32| #[trigger] final(vec)@.contains(x) <==> (old(vec)@.contains(x) || x == v),
        final(vec)@.len() >= 1,
        final(vec)@.len() >= old(vec)@.len(),
        (forall|k: int| 0 <= k < old(vec)@.len() ==> old(vec)@[k] < v) ==> final(vec)@ == old(
            vec,
        )@.push(v),
{
    let mut i: usize = 0;
    while i < vec.len() && vec[i] < v
        invariant
            i <= vec@.len(),
            vec == old(vec),
            forall|k: int| 0 <= k < i ==> vec@[k] < v,
        decreases vec@.len() - i,
    {
        i += 1;
    }
    if i < vec.len() && vec[i] == v {
        proof {
            assert(vec@.contains(vec@[i as int]));
            assert forall|x: u32| vec@.contains(x) implies (vec@.contains(x) || x == v) by {}
        }
        return ;
    }
    let ghost oldv = vec@;
    vec.insert(i, v);
    proof {
        assert(vec@ =~= oldv.subrange(0, i as int).push(v) + oldv.subrange(
            i as int,
            oldv.len() as int,
        ));
        assert(vec@[i as int] == v);
        assert(vec@.contains(vec@[i as int]));
        assert forall|a: int, b: int| 0 <= a < b < vec@.len() implies vec@[a] < vec@[b] by {
            if b < i {
                assert(vec@[a] == oldv[a] && vec@[b] == oldv[b]);
            } else if a > i {
                assert(vec@[a] == oldv[a - 1] && vec@[b] == oldv[b - 1]);
            } else if b == i {
                assert(vec@[a] == oldv[a] && oldv[a] < v);
            } else if a == i {
                // entries past the insertion point are at least v, and differ from it
                assert(vec@[b] == oldv[b - 1]);
                if b - 1 > i {
                    assert(oldv[i as int] < oldv[b - 1]);
                }
                assert(oldv[b - 1] != v);
            } else {
                // a < i < b
                assert(vec@[a] == oldv[a] && vec@[b] == oldv[b - 1]);
                if b - 1 > i {
                    assert(oldv[i as int] < oldv[b - 1]);
                }
            }
        }
        assert forall|x: u32| vec@.contains(x) implies (oldv.contains(x) || x == v) by {
            let k = choose|k: int| 0 <= k < vec@.len() && vec@[k] == x;
            if k < i {
                assert(oldv[k] == x);
            } else if k > i {
                assert(oldv[k - 1] == x);
            }
        }
        assert forall|x: u32| oldv.contains(x) implies vec@.contains(x) by {
            let k = choose|k: int| 0 <= k < oldv.len() && oldv[k] == x;
            if k < i {
                assert(vec@[k] == x);
            } else {
                assert(vec@[k + 1] == x);
            }
        }
        if forall|k: int| 0 <= k < oldv.len() ==> oldv[k] < v {
            assert(i == oldv.len());
            assert(vec@ =~= oldv.push(v));
        }
    }
}

/// Space, tab or carriage return: the separators within a line.
pub open spec fn spec_is_ws(c: char) -> bool {
    c == ' ' || c == '\t' || c == '\r'
}

fn char_is_ws(c: char) -> (r: bool)
    ensures
        r == spec_is_ws(c),
{
    c == ' ' || c == '\t' || c == '\r'
}

/// Index of the first separator character, or the length if none.
pub open spec fn spec_until_ws(s: Seq<char>) -> int
    decreases s.len(),
{
    if s.len() == 0 {
        0
    } else if spec_is_ws(s[0]) {
        0
    } else {
        1 + spec_until_ws(s.skip(1))
    }
}

proof fn lemma_until_ws_bounds(s: Seq<char>)
    ensures
        0 <= spec_until_ws(s) <= s.len(),
    decreases s.len(),
{
    if s.len() > 0 && !spec_is_ws(s[0]) {
        lemma_until_ws_bounds(s.skip(1));
    }
}

/// The whitespace-separated tokens of the text, in order.
pub open spec fn spec_tokens(s: Seq<char>) -> Seq<Seq<char>>
    decreases s.len(),
    via spec_tokens_decreases
{
    if s.len() == 0 {
        Seq::empty()
    } else if spec_is_ws(s[0]) {
        spec_tokens(s.skip(1))
    } else {
        let j = spec_until_ws(s);
        seq![s.subrange(0, j)] + spec_tokens(s.skip(j))
    }
}

#[via_fn]
proof fn spec_tokens_decreases(s: Seq<char>) {
    if s.len() > 0 && !spec_is_ws(s[0]) {
        lemma_until_ws_bounds(s.skip(1));
    }
}

/// A scan that saw only separators has found no token.
proof fn lemma_tokens_empty(s: Seq<char>)
    requires
        forall|k: int| 0 <= k < s.len() ==> spec_is_ws(#[trigger] s[k]),
    ensures
        spec_tokens(s) == Seq::<Seq<char>>::empty(),
    decreases s.len(),
{
    if s.len() > 0 {
        assert forall|k: int| 0 <= k < s.skip(1).len() implies spec_is_ws(
            #[trigger] s.skip(1)[k],
        ) by {
            assert(s.skip(1)[k] == s[k + 1]);
        }
        lemma_tokens_empty(s.skip(1));
    }
}

/// Text that opens with separators, then a token, splits off that token.
proof fn lemma_tokens_peel(s: Seq<char>, i: int, j: int)
    requires
        0 <= i < j <= s.len(),
        forall|k: int| 0 <= k < i ==> spec_is_ws(#[trigger] s[k]),
        forall|k: int| i <= k < j ==> !spec_is_ws(#[trigger] s[k]),
        j == s.len() || spec_is_ws(s[j]),
    ensures
        spec_tokens(s) == seq![s.subrange(i, j)] + spec_tokens(s.skip(j)),
    decreases i,
{
    if i > 0 {
        let t = s.skip(1);
        assert forall|k: int| 0 <= k < i - 1 implies spec_is_ws(#[trigger] t[k]) by {
            assert(t[k] == s[k + 1]);
        }
        assert forall|k: int| i - 1 <= k < j - 1 implies !spec_is_ws(#[trigger] t[k]) by {
            assert(t[k] == s[k + 1]);
        }
        if j - 1 < t.len() {
            assert(t[j - 1] == s[j]);
        }
        lemma_tokens_peel(t, i - 1, j - 1);
        assert(t.subrange(i - 1, j - 1) =~= s.subrange(i, j));
        assert(t.skip(j - 1) =~= s.skip(j));
    } else {
        // the token starts immediately: its end is the first separator
        let t = s.skip(1);
        assert forall|k: int| 0 <= k < j - 1 implies !spec_is_ws(#[trigger] t[k]) by {
            assert(t[k] == s[k + 1]);
        }
        if j - 1 < t.len() {
            assert(t[j - 1] == s[j]);
        }
        lemma_until_ws_at(t, j - 1);
        assert(spec_until_ws(s) == j);
        assert(s.subrange(0, j) == s.subrange(i, j));
    }
}

/// A scan that saw no separator before `p`, and one at `p` unless `p` is
/// the end, has found the first separator.
proof fn lemma_until_ws_at(s: Seq<char>, p: int)
    requires
        0 <= p <= s.len(),
        forall|k: int| 0 <= k < p ==> !spec_is_ws(#[trigger] s[k]),
        p == s.len() || spec_is_ws(s[p]),
    ensures
        spec_until_ws(s) == p,
    decreases p,
{
    if p > 0 {
        let t = s.skip(1);
        assert forall|k: int| 0 <= k < p - 1 implies !spec_is_ws(#[trigger] t[k]) by {
            assert(t[k] == s[k + 1]);
        }
        if p < s.len() {
            assert(t[p - 1] == s[p]);
        }
        lemma_until_ws_at(t, p - 1);
    }
}

/// The next whitespace-separated token in `[from, end)`: its start and end.
/// When no token remains, both are `end`; otherwise the token heads the
/// token list of the range, and the rest follow from its end.
#[verifier::loop_isolation(false)]
fn scan_token(chars: &Vec<char>, from: usize, end: usize) -> (r: (usize, usize))
    requires
        from <= end <= chars@.len(),
    ensures
        from <= r.0 <= r.1 <= end,
        r.0 == r.1 ==> r.0 == end && spec_tokens(chars@.subrange(from as int, end as int))
            == Seq::<Seq<char>>::empty(),
        r.0 < r.1 ==> spec_tokens(chars@.subrange(from as int, end as int)) == seq![
            chars@.subrange(r.0 as int, r.1 as int),
        ] + spec_tokens(chars@.subrange(r.1 as int, end as int)),
{
    let ghost whole = chars@.subrange(from as int, end as int);
    let mut s = from;
    while s < end && char_is_ws(chars[s])
        invariant
            from <= s <= end,
            forall|k: int| from <= k < s ==> spec_is_ws(#[trigger] chars@[k]),
        decreases end - s,
    {
        s += 1;
    }
    if s == end {
        proof {
            assert forall|k: int| 0 <= k < whole.len() implies spec_is_ws(
                #[trigger] whole[k],
            ) by {
                assert(whole[k] == chars@[from + k]);
            }
            lemma_tokens_empty(whole);
        }
        return (end, end);
    }
    let mut e = s;
    while e < end && !char_is_ws(chars[e])
        invariant
            s <= e <= end,
            forall|k: int| s <= k < e ==> !spec_is_ws(#[trigger] chars@[k]),
        decreases end - e,
    {
        e += 1;
    }
    proof {
        assert forall|k: int| 0 <= k < s - from implies spec_is_ws(#[trigger] whole[k]) by {
            assert(whole[k] == chars@[from + k]);
        }
        assert forall|k: int| s - from <= k < e - from implies !spec_is_ws(
            #[trigger] whole[k],
        ) by {
            assert(whole[k] == chars@[from + k]);
        }
        if e < end {
            assert(whole[e - from] == chars@[e as int]);
        }
        lemma_tokens_peel(whole, s - from, e - from);
        assert(whole.subrange(s - from, e - from) =~= chars@.subrange(s as int, e as int));
        assert(whole.skip(e - from) =~= chars@.subrange(e as int, end as int));
    }
    (s, e)
}

/// The rest of a joined token list: a space before each further token.
pub open spec fn spec_join_tail(ts: Seq<Seq<char>>) -> Seq<char>
    decreases ts.len(),
{
    if ts.len() == 0 {
        Seq::empty()
    } else {
        seq![' '] + ts[0] + spec_join_tail(ts.skip(1))
    }
}

/// The tokens joined with single spaces.
pub open spec fn spec_join(ts: Seq<Seq<char>>) -> Seq<char> {
    if ts.len() == 0 {
        Seq::empty()
    } else {
        ts[0] + spec_join_tail(ts.skip(1))
    }
}

/// The tokens of `[from, to)` joined with single spaces: how a command is
/// assembled from everything after the schedule fields.
#[verifier::loop_isolation(false)]
fn join_tokens(input: &str, chars: &Vec<char>, from: usize, to: usize) -> (r: String)
    requires
        chars@ == input@,
        from <= to <= chars@.len(),
    ensures
        r@ == spec_join(spec_tokens(chars@.subrange(from as int, to as int))),
{
    let ghost all = spec_tokens(chars@.subrange(from as int, to as int));
    let mut out = String::new();
    let mut first = true;
    let mut p = from;
    loop
        invariant
            from <= p <= to,
            to <= chars@.len(),
            chars@ == input@,
            first ==> out@.len() == 0 && spec_tokens(chars@.subrange(p as int, to as int))
                == all,
            !first ==> all.len() > 0 && spec_join(all) == out@ + spec_join_tail(
                spec_tokens(chars@.subrange(p as int, to as int)),
            ),
        decreases to - p,
    {
        let (ts, te) = scan_token(chars, p, to);
        if ts == te {
            proof {
                if first {
                    assert(out@ =~= spec_join(all));
                } else {
                    assert(out@ + spec_join_tail(
                        spec_tokens(chars@.subrange(p as int, to as int)),
                    ) =~= out@);
                }
            }
            return out;
        }
        let ghost tok = chars@.subrange(ts as int, te as int);
        let ghost rest = spec_tokens(chars@.subrange(te as int, to as int));
        if !first {
            out.append(" ");
            proof {
                reveal_strlit(" ");
            }
        }
        out.append(input.substring_char(ts, te));
        proof {
            if first {
                assert(all == seq![tok] + rest);
                assert(all[0] == tok);
                assert(all.skip(1) =~= rest);
                assert(out@ =~= tok);
                assert(spec_join(all) == tok + spec_join_tail(rest));
            } else {
                let before = spec_tokens(chars@.subrange(p as int, to as int));
                assert(before == seq![tok] + rest);
                assert(before[0] == tok);
                assert(before.skip(1) =~= rest);
                assert(spec_join_tail(before) == seq![' '] + tok + spec_join_tail(rest));
                assert(" "@ =~= seq![' ']);
            }
        }
        first = false;
        p = te;
    }
}

/// Is the value outside the closed range `[min, max]`?
pub fn is_out_of_bounds(x: u32, min: u32, max: u32) -> (r: bool)
    ensures
        r == !(min <= x && x <= max),
{
    !(x >= min && x <= max)
}

/// An explicit interval holding the single value.
fn single_interval(v: u32) -> (r: CronInterval)
    ensures
        spec_single(r, v),
{
    let mut vec: Vec<u32> = Vec::new();
    vec.push(v);
    proof {
        assert(vec@ =~= seq![v]);
    }
    CronInterval::Multiple(vec)
}

/// An explicit interval holding exactly the one value.
pub open spec fn spec_single(iv: CronInterval, v: u32) -> bool {
    iv matches CronInterval::Multiple(vs) && vs@ == seq![v]
}

/// Is the token one of the named scheduling shorthands?
pub open spec fn spec_is_shorthand(tok: Seq<char>) -> bool {
    ||| tok == "@yearly"@
    ||| tok == "@annually"@
    ||| tok == "@monthly"@
    ||| tok == "@weekly"@
    ||| tok == "@daily"@
    ||| tok == "@midnight"@
    ||| tok == "@hourly"@
}

/// The five intervals a shorthand token stands for: `@yearly`/`@annually`
/// is `0 0 1 1 *`, `@monthly` is `0 0 1 * *`, `@weekly` is `0 0 * * 0`,
/// `@daily`/`@midnight` is `0 0 * * *`, and `@hourly` is `0 * * * *`.
pub open spec fn spec_shorthand_fields(
    tok: Seq<char>,
    minute: CronInterval,
    hour: CronInterval,
    dom: CronInterval,
    month: CronInterval,
    dow: CronInterval,
) -> bool {
    if tok == "@yearly"@ || tok == "@annually"@ {
        spec_single(minute, 0) && spec_single(hour, 0) && spec_single(dom, 1) && spec_single(
            month,
            1,
        ) && dow is Every
    } else if tok == "@monthly"@ {
        spec_single(minute, 0) && spec_single(hour, 0) && spec_single(dom, 1) && month is Every
            && dow is Every
    } else if tok == "@weekly"@ {
        spec_single(minute, 0) && spec_single(hour, 0) && dom is Every && month is Every
            && spec_single(dow, 0)
    } else if tok == "@daily"@ || tok == "@midnight"@ {
        spec_single(minute, 0) && spec_single(hour, 0) && dom is Every && month is Every
            && dow is Every
    } else if tok == "@hourly"@ {
        spec_single(minute, 0) && hour is Every && dom is Every && month is Every && dow is Every
    } else {
        false
    }
}

/// The five intervals a named shorthand stands for; `None` exactly for a
/// token that is no known shorthand.
fn parse_special_expression(chars: &Vec<char>, s: usize, e: usize) -> (r: Option<
    (CronInterval, CronInterval, CronInterval, CronInterval, CronInterval),
>)
    requires
        s <= e <= chars@.len(),
    ensures
        r is Some <==> spec_is_shorthand(chars@.subrange(s as int, e as int)),
        r matches Some(t) ==> {
            &&& spec_shorthand_fields(
                chars@.subrange(s as int, e as int),
                t.0,
                t.1,
                t.2,
                t.3,
                t.4,
            )
            &&& CronExpr(CronUnit::Minute, t.0).wf()
            &&& CronExpr(CronUnit::Hour, t.1).wf()
            &&& CronExpr(CronUnit::DayOfMonth, t.2).wf()
            &&& CronExpr(CronUnit::Month, t.3).wf()
            &&& CronExpr(CronUnit::DayOfWeek, t.4).wf()
        },
{
    if range_eq_str(chars, s, e, "@yearly") || range_eq_str(chars, s, e, "@annually") {
        Some(
            (
                single_interval(0),
                single_interval(0),
                single_interval(1),
                single_interval(1),
                CronInterval::Every,
            ),
        )
    } else if range_eq_str(chars, s, e, "@monthly") {
        Some(
            (
                single_interval(0),
                single_interval(0),
                single_interval(1),
                CronInterval::Every,
                CronInterval::Every,
            ),
        )
    } else if range_eq_str(chars, s, e, "@weekly") {
        Some(
            (
                single_interval(0),
                single_interval(0),
                CronInterval::Every,
                CronInterval::Every,
                single_interval(0),
            ),
        )
    } else if range_eq_str(chars, s, e, "@daily") || range_eq_str(chars, s, e, "@midnight") {
        Some(
            (
                single_interval(0),
                single_interval(0),
                CronInterval::Every,
                CronInterval::Every,
                CronInterval::Every,
            ),
        )
    } else if range_eq_str(chars, s, e, "@hourly") {
        Some(
            (
                single_interval(0),
                CronInterval::Every,
                CronInterval::Every,
                CronInterval::Every,
                CronInterval::Every,
            ),
        )
    } else {
        None
    }
}

/// Parse one field expression for the given unit: a comma-separated mix of
/// `*`, `*/N`, `N-M` and single values. On success the interval is
/// well-formed for the unit: non-empty, strictly ascending, within bounds.
///
/// A token without commas is pinned exactly by [`spec_single_token`]: which
/// interval each of the four forms yields, and with which error kind each
/// malformed or out-of-range form is rejected. A comma list combines its
/// parts' values, sorted and deduplicated.
#[verifier::loop_isolation(false)]
#[verifier::rlimit(100)]
pub fn parse_cron_time(unit: &CronUnit, expr: &str) -> (r: Result<CronInterval, ParseErrorKind>)
    ensures
        r matches Ok(iv) ==> CronExpr(*unit, iv).wf(),
        !expr@.contains(',') ==> spec_single_token(expr@, unit.spec_min(), unit.spec_max(), r),
{
    let chars = to_chars(expr);
    let (min, max) = unit.bounds();
    let mut points: Vec<u32> = Vec::new();
    let n = chars.len();
    let mut s: usize = 0;
    let ghost cf = !expr@.contains(',');
    let mut more = true;
    while more
        invariant
            s <= n,
            n == chars@.len(),
            chars@ == expr@,
            min == unit.spec_min(),
            max == unit.spec_max(),
            forall|i: int, j: int| 0 <= i < j < points@.len() ==> points@[i] < points@[j],
            forall|x: u32| points@.contains(x) ==> min <= x <= max,
            s > 0 ==> s - 1 < n && chars@[s - 1] == ',',
            more ==> (cf ==> s == 0 && points@.len() == 0),
            !more ==> (cf ==> spec_token_final(expr@, min, max, points@)),
        decreases n - s, (if more {
            1int
        } else {
            0int
        }),
    {
        // the current comma-separated segment is [s, e)
        let mut e = s;
        while e < n && chars[e] != ','
            invariant
                s <= e <= n,
                forall|k: int| s <= k < e ==> chars@[k] != ',',
            decreases n - e,
        {
            e += 1;
        }
        proof {
            // a comma-free expression is one segment spanning it whole
            if cf {
                if s > 0 {
                    assert(expr@[s - 1] == ',');
                    assert(expr@.contains(','));
                }
                if e < n {
                    assert(chars@[e as int] == ',');
                    assert(expr@.contains(','));
                }
            }
        }
        if e - s == 1 && chars[s] == '*' {
            proof {
                if cf {
                    assert(expr@ =~= seq!['*']);
                }
            }
            return Ok(CronInterval::Every);
        } else if e - s >= 2 && chars[s] == '*' && chars[s + 1] == '/' {
            // a step expression: every multiple of the step within the range
            proof {
                if cf {
                    assert(chars@.subrange(s + 2, e as int) =~= expr@.skip(2));
                    assert(!(expr@ == seq!['*']));
                }
            }
            let step = match parse_u32(&chars, s + 2, e) {
                Some(v) => v,
                None => {
                    return Err(ParseErrorKind::NotAnInteger);
                },
            };
            if step == 0 {
                return Err(ParseErrorKind::ZeroStep);
            }
            let mut x = min;
            while x < max
                invariant
                    min <= x <= max,
                    step > 0,
                    forall|i: int, j: int| 0 <= i < j < points@.len() ==> points@[i] < points@[j],
                    forall|y: u32| points@.contains(y) ==> min <= y <= max,
                    cf ==> points@ == spec_step_values(min, x as int, step),
                decreases max - x,
            {
                if x % step == 0 {
                    proof {
                        if cf {
                            lemma_step_values_bounds(min, x as int, step);
                        }
                    }
                    insert_sorted_unique(&mut points, x);
                }
                proof {
                    if cf {
                        assert(points@ == spec_step_values(min, x + 1, step));
                    }
                }
                x += 1;
            }
        } else {
            // find a range separator in [s, e)
            let mut p = s;
            while p < e && chars[p] != '-'
                invariant
                    s <= p <= e,
                    forall|k: int| s <= k < p ==> chars@[k] != '-',
                decreases e - p,
            {
                p += 1;
            }
            if p < e {
                // a range expression: the stop ends at a second separator, if any
                proof {
                    if cf {
                        lemma_find_at(expr@, '-', p as int);
                        assert(!(expr@ == seq!['*']));
                    }
                }
                let mut p2 = p + 1;
                while p2 < e && chars[p2] != '-'
                    invariant
                        p + 1 <= p2 <= e,
                        forall|k: int| p + 1 <= k < p2 ==> chars@[k] != '-',
                    decreases e - p2,
                {
                    p2 += 1;
                }
                proof {
                    if cf {
                        let rest = expr@.skip(p + 1);
                        assert forall|k: int| 0 <= k < p2 - (p + 1) implies rest[k] != '-' by {
                            assert(rest[k] == expr@[p + 1 + k]);
                        }
                        if p2 < e {
                            assert(rest[p2 - (p + 1)] == expr@[p2 as int]);
                        }
                        lemma_find_at(rest, '-', p2 - (p + 1));
                        assert(chars@.subrange(s as int, p as int) =~= expr@.subrange(
                            0,
                            p as int,
                        ));
                        assert(chars@.subrange(p + 1, p2 as int) =~= rest.subrange(
                            0,
                            p2 - (p + 1),
                        ));
                    }
                }
                let start = match parse_u32(&chars, s, p) {
                    Some(v) => v,
                    None => {
                        return Err(ParseErrorKind::NotAnInteger);
                    },
                };
                let stop = match parse_u32(&chars, p + 1, p2) {
                    Some(v) => v,
                    None => {
                        return Err(ParseErrorKind::NotAnInteger);
                    },
                };
                if is_out_of_bounds(start, min, max) || is_out_of_bounds(stop, min, max) {
                    return Err(ParseErrorKind::OutOfBounds);
                }
                if start == stop || start > stop {
                    return Err(ParseErrorKind::InvalidRange);
                }
                let mut x = start;
                while x <= stop
                    invariant
                        start <= x <= stop + 1,
                        min <= start,
                        start < stop <= max,
                        forall|i: int, j: int|
                            0 <= i < j < points@.len() ==> points@[i] < points@[j],
                        forall|y: u32| points@.contains(y) ==> min <= y <= max,
                        cf ==> points@ == spec_range_values(start, x - 1),
                    decreases stop + 1 - x,
                {
                    proof {
                        if cf {
                            lemma_range_values_bounds(start, x - 1);
                        }
                    }
                    insert_sorted_unique(&mut points, x);
                    proof {
                        if cf {
                            assert(points@ == spec_range_values(start, x as int));
                        }
                    }
                    x += 1;
                }
            } else {
                // a single value
                proof {
                    if cf {
                        lemma_find_at(expr@, '-', e as int);
                        assert(chars@.subrange(0, n as int) =~= expr@);
                    }
                }
                let v = match parse_u32(&chars, s, e) {
                    Some(v) => v,
                    None => {
                        return Err(ParseErrorKind::NotAnInteger);
                    },
                };
                if v < min || v > max {
                    return Err(ParseErrorKind::OutOfBounds);
                }
                insert_sorted_unique(&mut points, v);
                proof {
                    if cf {
                        assert(points@ =~= seq![v]);
                    }
                }
            }
        }
        if e == n {
            more = false;
        } else {
            s = e + 1;
        }
    }
    if points.len() == 0 {
        proof {
            if cf {
                // only a step that selects nothing leaves the values empty
                let seg = expr@;
                if !(seg == seq!['*']) && !(seg.len() >= 2 && seg[0] == '*' && seg[1] == '/') {
                    if spec_find(seg, '-') < seg.len() {
                        let p = spec_find(seg, '-');
                        let apart = seg.subrange(0, p);
                        let rest = seg.skip(p + 1);
                        let b = spec_digits_val(rest.subrange(0, spec_find(rest, '-')));
                        lemma_range_values_bounds(spec_digits_val(apart) as u32, b);
                    }
                }
            }
        }
        return Err(ParseErrorKind::EmptyInterval);
    }
    proof {
        assert forall|i: int| 0 <= i < points@.len() implies unit.spec_min()
            <= #[trigger] points@[i] <= unit.spec_max() by {
            assert(points@.contains(points@[i]));
        }
    }
    Ok(CronInterval::Multiple(points))
}

/// The lines of the text, split on newlines; a trailing newline closes the
/// last line rather than opening an empty one.
pub open spec fn spec_lines(s: Seq<char>) -> Seq<Seq<char>>
    decreases s.len(),
    via spec_lines_decreases
{
    if s.len() == 0 {
        Seq::empty()
    } else {
        let p = spec_find(s, '\n');
        if p >= s.len() {
            seq![s]
        } else {
            seq![s.subrange(0, p)] + spec_lines(s.skip(p + 1))
        }
    }
}

proof fn lemma_find_bounds(s: Seq<char>, c: char)
    ensures
        0 <= spec_find(s, c) <= s.len(),
    decreases s.len(),
{
    if s.len() > 0 && s[0] != c {
        lemma_find_bounds(s.skip(1), c);
    }
}

#[via_fn]
proof fn spec_lines_decreases(s: Seq<char>) {
    if s.len() > 0 {
        lemma_find_bounds(s, '\n');
    }
}

/// A line the parser skips: blank, or opening with a comment mark.
pub open spec fn spec_skippable(line: Seq<char>) -> bool {
    spec_tokens(line).len() == 0 || spec_tokens(line)[0][0] == '#'
}

/// The lines that yield descriptors, in order.
pub open spec fn spec_effective(ls: Seq<Seq<char>>) -> Seq<Seq<char>>
    decreases ls.len(),
{
    if ls.len() == 0 {
        Seq::empty()
    } else {
        let rest = spec_effective(ls.skip(1));
        if spec_skippable(ls[0]) {
            rest
        } else {
            seq![ls[0]] + rest
        }
    }
}

/// Extending the line list by one extends the effective lines by that line,
/// or by nothing when it is skippable.
proof fn lemma_effective_snoc(ls: Seq<Seq<char>>, l: Seq<char>)
    ensures
        spec_effective(ls.push(l)) == spec_effective(ls) + (if spec_skippable(l) {
            Seq::<Seq<char>>::empty()
        } else {
            seq![l]
        }),
    decreases ls.len(),
{
    let tail = if spec_skippable(l) {
        Seq::<Seq<char>>::empty()
    } else {
        seq![l]
    };
    if ls.len() == 0 {
        assert(ls.push(l).skip(1) =~~= Seq::<Seq<char>>::empty());
        assert(ls.push(l)[0] == l);
        assert(spec_effective(ls.push(l).skip(1)) =~~= Seq::<Seq<char>>::empty());
        if spec_skippable(l) {
            assert(spec_effective(ls.push(l)) =~~= tail);
        } else {
            assert(spec_effective(ls.push(l)) =~~= seq![l] + Seq::<Seq<char>>::empty());
            assert(seq![l] + Seq::<Seq<char>>::empty() =~~= tail);
        }
        assert(spec_effective(ls) =~~= Seq::<Seq<char>>::empty());
        assert(spec_effective(ls) + tail =~~= tail);
    } else {
        assert(ls.push(l).skip(1) =~~= ls.skip(1).push(l));
        lemma_effective_snoc(ls.skip(1), l);
        assert(ls.push(l)[0] == ls[0]);
        if spec_skippable(ls[0]) {
            assert(spec_effective(ls.push(l)) == spec_effective(ls.skip(1)) + tail);
            assert(spec_effective(ls) == spec_effective(ls.skip(1)));
        } else {
            assert(spec_effective(ls.push(l)) == seq![ls[0]] + (spec_effective(ls.skip(1))
                + tail));
            assert(seq![ls[0]] + (spec_effective(ls.skip(1)) + tail) =~~= (seq![ls[0]]
                + spec_effective(ls.skip(1))) + tail);
        }
    }
}

/// The descriptor a non-skippable crontab line stands for: a startup job
/// for `@reboot`, the mapped fields for a shorthand, else the five parsed
/// fields in the fixed unit order; in each case the command is the
/// remaining tokens joined by single spaces.
pub open spec fn spec_line_entry(line: Seq<char>, en: CronEntry) -> bool {
    let toks = spec_tokens(line);
    &&& en.wf()
    &&& toks.len() > 0
    &&& if toks[0] == "@reboot"@ {
        &&& en.startup
        &&& toks.len() >= 2
        &&& en.cmd@ == spec_join(toks.skip(1))
        &&& en.minute.1 is Every
        &&& en.hour.1 is Every
        &&& en.dom.1 is Every
        &&& en.month.1 is Every
        &&& en.dow.1 is Every
    } else if toks[0][0] == '@' {
        &&& !en.startup
        &&& toks.len() >= 2
        &&& spec_shorthand_fields(
            toks[0],
            en.minute.1,
            en.hour.1,
            en.dom.1,
            en.month.1,
            en.dow.1,
        )
        &&& en.cmd@ == spec_join(toks.skip(1))
    } else {
        &&& !en.startup
        &&& toks.len() >= 5
        &&& (!toks[0].contains(',') ==> spec_single_token(toks[0], 0, 59, Ok(en.minute.1)))
        &&& (!toks[1].contains(',') ==> spec_single_token(toks[1], 0, 23, Ok(en.hour.1)))
        &&& (!toks[2].contains(',') ==> spec_single_token(toks[2], 1, 31, Ok(en.dom.1)))
        &&& (!toks[3].contains(',') ==> spec_single_token(toks[3], 1, 12, Ok(en.month.1)))
        &&& (!toks[4].contains(',') ==> spec_single_token(toks[4], 0, 6, Ok(en.dow.1)))
        &&& en.cmd@ == spec_join(toks.skip(5))
    }
}

/// How the schedule field at position `i` can fault: the line runs out of
/// tokens there, a comma-free token faults exactly as [`spec_single_token`]
/// says, or the token is a comma list (whose faults the token spec leaves
/// open).
pub open spec fn spec_field_err(
    toks: Seq<Seq<char>>,
    i: int,
    min: u32,
    max: u32,
    kind: ParseErrorKind,
) -> bool {
    ||| (kind is MissingField && toks.len() == i)
    ||| (toks.len() > i && !toks[i].contains(',') && spec_single_token(toks[i], min, max, Err(kind)))
    ||| (toks.len() > i && toks[i].contains(','))
}

/// The faults a non-skippable line can be rejected with: a bare `@reboot`,
/// an unknown or command-less shorthand, or a failing schedule field.
pub open spec fn spec_line_err(line: Seq<char>, kind: ParseErrorKind) -> bool {
    let toks = spec_tokens(line);
    &&& toks.len() > 0
    &&& if toks[0] == "@reboot"@ {
        kind is MissingCommand && toks.len() == 1
    } else if toks[0][0] == '@' {
        ||| (kind is UnknownSchedule && !spec_is_shorthand(toks[0]))
        ||| (kind is MissingCommand && spec_is_shorthand(toks[0]) && toks.len() == 1)
    } else {
        ||| spec_field_err(toks, 0, 0, 59, kind)
        ||| spec_field_err(toks, 1, 0, 23, kind)
        ||| spec_field_err(toks, 2, 1, 31, kind)
        ||| spec_field_err(toks, 3, 1, 12, kind)
        ||| spec_field_err(toks, 4, 0, 6, kind)
    }
}

/// Parse one schedule field: the range's first token, against the unit.
/// On success the interval pairs with the unit as a well-formed expression,
/// a comma-free token exactly as [`spec_single_token`] says, and the
/// position just past the token is returned for the next field.
fn parse_field(
    input: &str,
    chars: &Vec<char>,
    from: usize,
    le: usize,
    unit: CronUnit,
    line_no: usize,
) -> (r: Result<(CronInterval, usize), ParseError>)
    requires
        chars@ == input@,
        from <= le <= chars@.len(),
    ensures
        ({
            let toks = spec_tokens(chars@.subrange(from as int, le as int));
            match r {
                Ok(p) => {
                    &&& toks.len() > 0
                    &&& CronExpr(unit, p.0).wf()
                    &&& from <= p.1 <= le
                    &&& spec_tokens(chars@.subrange(p.1 as int, le as int)) == toks.skip(1)
                    &&& (!toks[0].contains(',') ==> spec_single_token(
                        toks[0],
                        unit.spec_min(),
                        unit.spec_max(),
                        Ok(p.0),
                    ))
                },
                Err(pe) => {
                    &&& pe.line == line_no
                    &&& (toks.len() == 0 ==> pe.kind is MissingField)
                    &&& (toks.len() > 0 && !toks[0].contains(',') ==> spec_single_token(
                        toks[0],
                        unit.spec_min(),
                        unit.spec_max(),
                        Err(pe.kind),
                    ))
                },
            }
        }),
{
    let (ts, te) = scan_token(chars, from, le);
    if ts == te {
        return Err(
            ParseError {
                line: line_no,
                token: String::new(),
                kind: ParseErrorKind::MissingField,
            },
        );
    }
    let token = input.substring_char(ts, te);
    proof {
        let toks = spec_tokens(chars@.subrange(from as int, le as int));
        assert(token@ == chars@.subrange(ts as int, te as int));
        assert(toks[0] == token@);
        assert(toks.skip(1) =~~= spec_tokens(chars@.subrange(te as int, le as int)));
    }
    match parse_cron_time(&unit, token) {
        Ok(iv) => Ok((iv, te)),
        Err(kind) => Err(ParseError { line: line_no, token: token.to_owned(), kind }),
    }
}

/// Parse one crontab line `[from, eol)`: `None` for a blank or comment
/// line; otherwise the descriptor the line stands for, or its fault.
#[verifier::loop_isolation(false)]
#[verifier::rlimit(100)]
fn parse_line(
    input: &str,
    chars: &Vec<char>,
    from: usize,
    eol: usize,
    line_no: usize,
) -> (r: Result<Option<CronEntry>, ParseError>)
    requires
        chars@ == input@,
        from <= eol <= chars@.len(),
    ensures
        ({
            let line = chars@.subrange(from as int, eol as int);
            match r {
                Ok(opt) => match opt {
                    None => spec_skippable(line),
                    Some(en) => !spec_skippable(line) && spec_line_entry(line, en),
                },
                Err(pe) => pe.line == line_no && !spec_skippable(line) && spec_line_err(
                    line,
                    pe.kind,
                ),
            }
        }),
{
    let ghost line = chars@.subrange(from as int, eol as int);
    let (t0s, t0e) = scan_token(chars, from, eol);
    if t0s == t0e {
        // a blank line yields nothing
        return Ok(None);
    }
    let ghost tok0 = chars@.subrange(t0s as int, t0e as int);
    proof {
        assert(spec_tokens(line)[0] == tok0);
        assert(tok0.len() > 0);
        assert(tok0[0] == chars@[t0s as int]);
    }
    if chars[t0s] == '#' {
        // a comment line yields nothing
        return Ok(None);
    }
    proof {
        assert(!spec_skippable(line));
    }
    if chars[t0s] == '@' {
        let (c0s, c0e) = scan_token(chars, t0e, eol);
        proof {
            assert(spec_tokens(chars@.subrange(t0e as int, eol as int)) == spec_tokens(
                line,
            ).skip(1));
        }
        if range_eq_str(chars, t0s, t0e, "@reboot") {
            if c0s == c0e {
                proof {
                    assert(spec_tokens(line).skip(1).len() == 0);
                    assert(spec_tokens(line).len() == 1);
                    assert(spec_line_err(line, ParseErrorKind::MissingCommand));
                }
                return Err(
                    ParseError {
                        line: line_no,
                        token: input.substring_char(t0s, t0e).to_owned(),
                        kind: ParseErrorKind::MissingCommand,
                    },
                );
            }
            let cmd = join_tokens(input, chars, t0e, eol);
            let en = CronEntry::new_startup_task(cmd.as_str());
            proof {
                assert(spec_tokens(line).skip(1).len() > 0);
                assert(spec_line_entry(line, en));
            }
            return Ok(Some(en));
        }
        match parse_special_expression(chars, t0s, t0e) {
            None => {
                proof {
                    assert(spec_line_err(line, ParseErrorKind::UnknownSchedule));
                }
                return Err(
                    ParseError {
                        line: line_no,
                        token: input.substring_char(t0s, t0e).to_owned(),
                        kind: ParseErrorKind::UnknownSchedule,
                    },
                );
            },
            Some((i_min, i_hour, i_dom, i_month, i_dow)) => {
                if c0s == c0e {
                    proof {
                        assert(spec_tokens(line).skip(1).len() == 0);
                        assert(spec_tokens(line).len() == 1);
                        assert(spec_line_err(line, ParseErrorKind::MissingCommand));
                    }
                    return Err(
                        ParseError {
                            line: line_no,
                            token: input.substring_char(t0s, t0e).to_owned(),
                            kind: ParseErrorKind::MissingCommand,
                        },
                    );
                }
                let cmd = join_tokens(input, chars, t0e, eol);
                let en = CronEntry {
                    minute: CronExpr(CronUnit::Minute, i_min),
                    hour: CronExpr(CronUnit::Hour, i_hour),
                    dom: CronExpr(CronUnit::DayOfMonth, i_dom),
                    month: CronExpr(CronUnit::Month, i_month),
                    dow: CronExpr(CronUnit::DayOfWeek, i_dow),
                    startup: false,
                    cmd,
                };
                proof {
                    assert(spec_tokens(line).skip(1).len() > 0);
                    assert(spec_line_entry(line, en));
                }
                return Ok(Some(en));
            },
        }
    }
    // a plain five-field line
    proof {
        reveal_strlit("@reboot");
    }
    let ghost ltoks = spec_tokens(line);
    let (i_min, p1) = match parse_field(input, chars, from, eol, CronUnit::Minute, line_no) {
        Ok(p) => p,
        Err(err) => {
            proof {
                assert(spec_field_err(ltoks, 0, 0, 59, err.kind));
                assert(spec_line_err(line, err.kind));
            }
            return Err(err);
        },
    };
    proof {
        assert(spec_tokens(chars@.subrange(p1 as int, eol as int)) == ltoks.skip(1));
        assert(ltoks.skip(1).len() == ltoks.len() - 1);
        assert(ltoks.skip(1).len() > 0 ==> ltoks.skip(1)[0] == ltoks[1]);
    }
    let (i_hour, p2) = match parse_field(input, chars, p1, eol, CronUnit::Hour, line_no) {
        Ok(p) => p,
        Err(err) => {
            proof {
                assert(spec_field_err(ltoks, 1, 0, 23, err.kind));
                assert(spec_line_err(line, err.kind));
            }
            return Err(err);
        },
    };
    proof {
        assert(spec_tokens(chars@.subrange(p2 as int, eol as int)) =~~= ltoks.skip(2));
        assert(ltoks.skip(2).len() == ltoks.len() - 2);
        assert(ltoks.skip(2).len() > 0 ==> ltoks.skip(2)[0] == ltoks[2]);
    }
    let (i_dom, p3) = match parse_field(input, chars, p2, eol, CronUnit::DayOfMonth, line_no) {
        Ok(p) => p,
        Err(err) => {
            proof {
                assert(spec_field_err(ltoks, 2, 1, 31, err.kind));
                assert(spec_line_err(line, err.kind));
            }
            return Err(err);
        },
    };
    proof {
        assert(spec_tokens(chars@.subrange(p3 as int, eol as int)) =~~= ltoks.skip(3));
        assert(ltoks.skip(3).len() == ltoks.len() - 3);
        assert(ltoks.skip(3).len() > 0 ==> ltoks.skip(3)[0] == ltoks[3]);
    }
    let (i_month, p4) = match parse_field(input, chars, p3, eol, CronUnit::Month, line_no) {
        Ok(p) => p,
        Err(err) => {
            proof {
                assert(spec_field_err(ltoks, 3, 1, 12, err.kind));
                assert(spec_line_err(line, err.kind));
            }
            return Err(err);
        },
    };
    proof {
        assert(spec_tokens(chars@.subrange(p4 as int, eol as int)) =~~= ltoks.skip(4));
        assert(ltoks.skip(4).len() == ltoks.len() - 4);
        assert(ltoks.skip(4).len() > 0 ==> ltoks.skip(4)[0] == ltoks[4]);
    }
    let (i_dow, p5) = match parse_field(input, chars, p4, eol, CronUnit::DayOfWeek, line_no) {
        Ok(p) => p,
        Err(err) => {
            proof {
                assert(spec_field_err(ltoks, 4, 0, 6, err.kind));
                assert(spec_line_err(line, err.kind));
            }
            return Err(err);
        },
    };
    let cmd = join_tokens(input, chars, p5, eol);
    let en = CronEntry {
        minute: CronExpr(CronUnit::Minute, i_min),
        hour: CronExpr(CronUnit::Hour, i_hour),
        dom: CronExpr(CronUnit::DayOfMonth, i_dom),
        month: CronExpr(CronUnit::Month, i_month),
        dow: CronExpr(CronUnit::DayOfWeek, i_dow),
        startup: false,
        cmd,
    };
    proof {
        assert(spec_tokens(chars@.subrange(p5 as int, eol as int)) =~~= ltoks.skip(5));
        assert(spec_line_entry(line, en));
    }
    Ok(Some(en))
}

/// Parse a whole crontab. Comment and blank lines are skipped; `@reboot`
/// lines become startup jobs; shorthand lines expand to their fields; every
/// other line must hold five fields and may carry a command. On success the
/// descriptors are exactly the image of the effective lines, in order, each
/// as [`spec_line_entry`] says; on failure the diagnostic points at a real,
/// non-skippable line, faulting as [`spec_line_err`] says, and carries the
/// offending token.
#[verifier::loop_isolation(false)]
#[verifier::rlimit(60)]
pub fn parse_crontab(input: &str) -> (r: Result<Vec<CronEntry>, ParseError>)
    ensures
        r matches Ok(es) ==> {
            let eff = spec_effective(spec_lines(input@));
            &&& es@.len() == eff.len()
            &&& forall|k: int| 0 <= k < eff.len() ==> spec_line_entry(eff[k], #[trigger] es@[k])
            &&& forall|k: int| 0 <= k < es@.len() ==> (#[trigger] es@[k]).wf()
        },
        r matches Err(pe) ==> {
            &&& pe.line < spec_lines(input@).len()
            &&& !spec_skippable(spec_lines(input@)[pe.line as int])
            &&& spec_line_err(spec_lines(input@)[pe.line as int], pe.kind)
        },
{
    let chars = to_chars(input);
    let n = chars.len();
    let mut entries: Vec<CronEntry> = Vec::new();
    let mut line_no: usize = 0;
    let mut pos: usize = 0;
    let ghost all_lines = spec_lines(input@);
    proof {
        assert(input@.skip(0) =~= input@);
        assert(all_lines.skip(0) =~~= all_lines);
        assert(all_lines.take(0) =~~= Seq::<Seq<char>>::empty());
    }
    loop
        invariant
            pos <= n,
            line_no <= pos,
            n == chars@.len(),
            chars@ == input@,
            all_lines == spec_lines(input@),
            line_no <= all_lines.len(),
            all_lines.skip(line_no as int) == spec_lines(input@.skip(pos as int)),
            entries@.len() == spec_effective(all_lines.take(line_no as int)).len(),
            forall|k: int|
                0 <= k < entries@.len() ==> spec_line_entry(
                    spec_effective(all_lines.take(line_no as int))[k],
                    #[trigger] entries@[k],
                ),
            forall|k: int| 0 <= k < entries@.len() ==> (#[trigger] entries@[k]).wf(),
        decreases n - pos,
    {
        if pos >= n {
            break ;
        }
        let mut eol = pos;
        while eol < n && chars[eol] != '\n'
            invariant
                pos <= eol <= n,
                forall|k: int| pos <= k < eol ==> chars@[k] != '\n',
            decreases n - eol,
        {
            eol += 1;
        }
        let ghost suffix = input@.skip(pos as int);
        let ghost line = input@.subrange(pos as int, eol as int);
        proof {
            // the current suffix opens with exactly this line
            assert forall|k: int| 0 <= k < eol - pos implies suffix[k] != '\n' by {
                assert(suffix[k] == chars@[pos + k]);
            }
            if eol < n {
                assert(suffix[eol - pos] == chars@[eol as int]);
            }
            lemma_find_at(suffix, '\n', eol - pos);
            assert(suffix.subrange(0, eol - pos) =~= line);
            assert(line_no < all_lines.len());
            assert(all_lines.skip(line_no as int)[0] == all_lines[line_no as int]);
            assert(all_lines[line_no as int] == line);
            if eol < n {
                assert(suffix.skip(eol - pos + 1) =~= input@.skip(eol + 1));
                assert(all_lines.skip(line_no as int).skip(1) =~~= all_lines.skip(
                    line_no as int + 1,
                ));
            } else {
                assert(all_lines.skip(line_no as int).skip(1) =~~= all_lines.skip(
                    line_no as int + 1,
                ));
                assert(all_lines.skip(line_no as int + 1) =~~= Seq::<Seq<char>>::empty());
            }
            assert(all_lines.take(line_no as int + 1) =~~= all_lines.take(
                line_no as int,
            ).push(line));
            lemma_effective_snoc(all_lines.take(line_no as int), line);
            assert(chars@.subrange(pos as int, eol as int) == line);
        }
        match parse_line(input, &chars, pos, eol, line_no) {
            Ok(None) => {},
            Ok(Some(en)) => {
                entries.push(en);
            },
            Err(err) => {
                return Err(err);
            },
        }
        line_no += 1;
        if eol < n {
            pos = eol + 1;
        } else {
            pos = n;
        }
    }
    proof {
        assert(input@.skip(pos as int).len() == 0);
        assert(spec_lines(input@.skip(pos as int)) =~~= Seq::<Seq<char>>::empty());
        assert(line_no == all_lines.len());
        assert(all_lines.take(line_no as int) =~~= all_lines);
    }
    Ok(entries)
}

} // verus!
