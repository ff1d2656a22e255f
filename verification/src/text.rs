//! Whitespace normalization of text-node content.
//!
//! The policy, applied to each text node independently:
//! tabs become single spaces, carriage returns are deleted, newlines become
//! single spaces, every maximal run of two or more whitespace characters is
//! deleted outright (an isolated single space survives), and the result is
//! trimmed of leading and trailing whitespace.

use vstd::prelude::*;
use vstd::string::StrSliceExecFns;

verus! {

/// The whitespace characters the normalizer reasons about.
pub open spec fn is_ws(c: char) -> bool {
    c == ' ' || c == '\t' || c == '\n' || c == '\r'
}

/// Steps 1-3 of the policy: a tab or a newline becomes a space, a carriage
/// return disappears, every other character stays.
pub open spec fn pre_pass(s: Seq<char>) -> Seq<char>
    decreases s.len(),
{
    if s.len() == 0 {
        Seq::empty()
    } else {
        let head = s[s.len() - 1];
        let rest = pre_pass(s.drop_last());
        if head == '\r' {
            rest
        } else if head == '\t' || head == '\n' {
            rest + seq![' ']
        } else {
            rest + seq![head]
        }
    }
}

/// A character survives the run-collapsing step exactly when it is not
/// whitespace, or when it is whitespace with no whitespace neighbour:
/// maximal runs of two or more whitespace characters are deleted entirely.
pub open spec fn kept(s: Seq<char>, p: int) -> bool {
    !is_ws(s[p]) || ((p == 0 || !is_ws(s[p - 1])) && (p == s.len() - 1 || !is_ws(s[p + 1])))
}

/// The suffix of the run-collapsing step from position `p` on.
pub open spec fn collapse_from(s: Seq<char>, p: int) -> Seq<char>
    decreases s.len() - p,
{
    if p < 0 || p >= s.len() {
        Seq::empty()
    } else if kept(s, p) {
        seq![s[p]] + collapse_from(s, p + 1)
    } else {
        collapse_from(s, p + 1)
    }
}

/// Step 4 of the policy: delete every maximal whitespace run of length two
/// or more, keep isolated whitespace.
pub open spec fn collapse(s: Seq<char>) -> Seq<char> {
    collapse_from(s, 0)
}

/// What remains of `s` once leading whitespace is dropped.
pub open spec fn trim_front(s: Seq<char>) -> Seq<char>
    decreases s.len(),
{
    if s.len() > 0 && is_ws(s[0]) {
        trim_front(s.drop_first())
    } else {
        s
    }
}

/// What remains of `s` once trailing whitespace is dropped.
pub open spec fn trim_back(s: Seq<char>) -> Seq<char>
    decreases s.len(),
{
    if s.len() > 0 && is_ws(s[s.len() - 1]) {
        trim_back(s.drop_last())
    } else {
        s
    }
}

/// Step 5 of the policy: trim whitespace from both ends.
pub open spec fn trim(s: Seq<char>) -> Seq<char> {
    trim_back(trim_front(s))
}

/// The whole normalization policy as one function of the input.
pub open spec fn normalized(s: Seq<char>) -> Seq<char> {
    trim(collapse(pre_pass(s)))
}

/// Executable whitespace test.
fn ws(c: char) -> (b: bool)
    ensures
        b == is_ws(c),
{
    c == ' ' || c == '\t' || c == '\n' || c == '\r'
}

/// Normalizes the content of one text node.
pub fn normalize(s: &str) -> (r: String)
    ensures
        r@ == normalized(s@),
{
    let chars = pre_exec(s);
    let coll = collapse_exec(&chars);
    trim_exec(&coll)
}

/// Steps 1-3, executable: the result as a character vector.
fn pre_exec(s: &str) -> (r: Vec<char>)
    ensures
        r@ == pre_pass(s@),
{
    let n: usize = s.unicode_len();
    let mut out: Vec<char> = Vec::new();
    let mut i: usize = 0;
    while i < n
        invariant
            i <= n,
            n == s@.len(),
            out@ == pre_pass(s@.take(i as int)),
        decreases n - i,
    {
        let c = s.get_char(i);
        proof {
            assert(s@.take(i + 1).drop_last() =~= s@.take(i as int));
            assert(s@.take(i + 1)[i as int] == s@[i as int]);
        }
        if c == '\r' {
        } else if c == '\t' || c == '\n' {
            out.push(' ');
            proof {
                assert(out@ =~= pre_pass(s@.take(i as int)) + seq![' ']);
            }
        } else {
            out.push(c);
            proof {
                assert(out@ =~= pre_pass(s@.take(i as int)) + seq![c]);
            }
        }
        i = i + 1;
    }
    proof {
        assert(s@.take(n as int) =~= s@);
    }
    out
}

/// Step 4, executable.
fn collapse_exec(v: &Vec<char>) -> (r: Vec<char>)
    ensures
        r@ == collapse(v@),
{
    let n: usize = v.len();
    let mut out: Vec<char> = Vec::new();
    proof {
        assert(Seq::<char>::empty() + collapse_from(v@, 0) =~= collapse_from(v@, 0));
    }
    let mut i: usize = 0;
    while i < n
        invariant
            i <= n,
            n == v@.len(),
            collapse(v@) == out@ + collapse_from(v@, i as int),
        decreases n - i,
    {
        let c = v[i];
        let keep: bool = if !ws(c) {
            true
        } else {
            let left_ok: bool = i == 0 || !ws(v[i - 1]);
            let right_ok: bool = i == n - 1 || !ws(v[i + 1]);
            left_ok && right_ok
        };
        let ghost out0 = out@;
        if keep {
            out.push(c);
        }
        proof {
            assert(keep == kept(v@, i as int));
            if keep {
                assert(out0 + (seq![v@[i as int]] + collapse_from(v@, i + 1)) =~= (out0 + seq![
                    v@[i as int],
                ]) + collapse_from(v@, i + 1));
            }
        }
        i = i + 1;
    }
    proof {
        assert(out@ =~= out@ + collapse_from(v@, n as int));
    }
    out
}

/// Step 5, executable, with the final conversion back to a string.
fn trim_exec(v: &Vec<char>) -> (r: String)
    ensures
        r@ == trim(v@),
{
    let n: usize = v.len();
    let mut a: usize = 0;
    while a < n && ws(v[a])
        invariant
            a <= n,
            n == v@.len(),
            forall|k: int| 0 <= k < a ==> is_ws(v@[k]),
        decreases n - a,
    {
        a = a + 1;
    }
    let mut e: usize = n;
    while e > a && ws(v[e - 1])
        invariant
            a <= e <= n,
            n == v@.len(),
            forall|k: int| 0 <= k < a ==> is_ws(v@[k]),
            forall|k: int| e <= k < n ==> is_ws(v@[k]),
        decreases e,
    {
        e = e - 1;
    }
    proof {
        lemma_trim_front_skip(v@, a as int);
        lemma_trim_back_take(v@.skip(a as int), e - a);
        assert(v@.skip(a as int).take(e - a) =~= v@.subrange(a as int, e as int));
    }
    let mut out = String::new();
    proof {
        assert(v@.subrange(a as int, a as int) =~= Seq::<char>::empty());
    }
    let mut i: usize = a;
    while i < e
        invariant
            a <= i <= e <= n,
            n == v@.len(),
            out@ == v@.subrange(a as int, i as int),
        decreases e - i,
    {
        push_char(&mut out, v[i]);
        proof {
            assert(out@ =~= v@.subrange(a as int, i + 1));
        }
        i = i + 1;
    }
    out
}

/// Relies on String::push: appends one character to the string.
#[verifier::external_body]
pub fn push_char(s: &mut String, c: char)
    ensures
        final(s)@ == old(s)@ + seq![c],
{
    s.push(c)
}

/// No tab, carriage return or newline occurs in `s`.
pub open spec fn clean(s: Seq<char>) -> bool {
    forall|k: int| 0 <= k < s.len() ==> s[k] != '\t' && s[k] != '\r' && s[k] != '\n'
}

/// No two adjacent whitespace characters occur in `s`.
pub open spec fn no_runs(s: Seq<char>) -> bool {
    forall|k: int| 0 <= k < s.len() - 1 ==> !(is_ws(#[trigger] s[k]) && is_ws(s[k + 1]))
}

/// The first pass leaves no tab, carriage return or newline behind.
proof fn lemma_pre_clean(s: Seq<char>)
    ensures
        clean(pre_pass(s)),
    decreases s.len(),
{
    if s.len() > 0 {
        lemma_pre_clean(s.drop_last());
    }
}

/// On input the first pass has nothing to change, it is the identity.
proof fn lemma_pre_id(s: Seq<char>)
    requires
        clean(s),
    ensures
        pre_pass(s) == s,
    decreases s.len(),
{
    if s.len() > 0 {
        lemma_pre_id(s.drop_last());
        assert(s.drop_last() + seq![s[s.len() - 1]] =~= s);
    }
}

/// Collapsing keeps only characters of the input, so it keeps the input
/// clean.
proof fn lemma_collapse_clean(s: Seq<char>, p: int)
    requires
        clean(s),
    ensures
        clean(collapse_from(s, p)),
    decreases s.len() - p,
{
    if 0 <= p < s.len() {
        lemma_collapse_clean(s, p + 1);
    }
}

/// Collapsing leaves no two adjacent whitespace characters: a surviving
/// whitespace character had no whitespace neighbour, and its neighbours
/// survive next to it.
proof fn lemma_collapse_no_runs(s: Seq<char>, p: int)
    ensures
        no_runs(collapse_from(s, p)),
    decreases s.len() - p,
{
    if 0 <= p < s.len() {
        lemma_collapse_no_runs(s, p + 1);
        if kept(s, p) {
            let rest = collapse_from(s, p + 1);
            if is_ws(s[p]) && p < s.len() - 1 {
                assert(!is_ws(s[p + 1]));
                assert(kept(s, p + 1));
                assert(rest[0] == s[p + 1]);
            }
            let r = collapse_from(s, p);
            assert forall|k: int| 0 <= k < r.len() - 1 implies !(is_ws(#[trigger] r[k]) && is_ws(
                r[k + 1],
            )) by {
                if k > 0 {
                    assert(r[k] == rest[k - 1] && r[k + 1] == rest[k]);
                }
            }
        }
    }
}

/// On input with no whitespace runs, collapsing is the identity.
proof fn lemma_collapse_id(s: Seq<char>, p: int)
    requires
        no_runs(s),
        0 <= p <= s.len(),
    ensures
        collapse_from(s, p) == s.skip(p),
    decreases s.len() - p,
{
    if p >= s.len() {
        assert(s.skip(p) =~= Seq::<char>::empty());
    } else {
        assert(kept(s, p));
        lemma_collapse_id(s, p + 1);
        assert(seq![s[p]] + s.skip(p + 1) =~= s.skip(p));
    }
}

/// Trimming drops characters only, so it preserves cleanliness and the
/// absence of whitespace runs.
proof fn lemma_trim_front_preserves(s: Seq<char>)
    requires
        clean(s),
        no_runs(s),
    ensures
        clean(trim_front(s)),
        no_runs(trim_front(s)),
    decreases s.len(),
{
    if s.len() > 0 && is_ws(s[0]) {
        lemma_trim_front_preserves(s.drop_first());
    }
}

/// As `lemma_trim_front_preserves`, from the back.
proof fn lemma_trim_back_preserves(s: Seq<char>)
    requires
        clean(s),
        no_runs(s),
    ensures
        clean(trim_back(s)),
        no_runs(trim_back(s)),
    decreases s.len(),
{
    if s.len() > 0 && is_ws(s[s.len() - 1]) {
        lemma_trim_back_preserves(s.drop_last());
    }
}

/// What trimming leaves does not start with whitespace.
proof fn lemma_trim_front_head(s: Seq<char>)
    ensures
        trim_front(s).len() > 0 ==> !is_ws(trim_front(s)[0]),
    decreases s.len(),
{
    if s.len() > 0 && is_ws(s[0]) {
        lemma_trim_front_head(s.drop_first());
    }
}

/// What trimming leaves does not end with whitespace, and keeps its first
/// character.
proof fn lemma_trim_back_head_last(s: Seq<char>)
    ensures
        trim_back(s).len() > 0 ==> !is_ws(trim_back(s)[trim_back(s).len() - 1]),
        trim_back(s).len() > 0 ==> trim_back(s)[0] == s[0],
    decreases s.len(),
{
    if s.len() > 0 && is_ws(s[s.len() - 1]) {
        lemma_trim_back_head_last(s.drop_last());
    }
}

/// A string with no whitespace at either end is already trimmed.
proof fn lemma_trim_id(s: Seq<char>)
    requires
        s.len() == 0 || (!is_ws(s[0]) && !is_ws(s[s.len() - 1])),
    ensures
        trim(s) == s,
{
}

/// Law: normalization is idempotent. Normalized text has no tabs, carriage
/// returns or newlines, no run of two or more whitespace characters, and no
/// whitespace at either end, so a second pass changes nothing.
pub proof fn lemma_normalize_idempotent(s: Seq<char>)
    ensures
        normalized(normalized(s)) == normalized(s),
{
    let q = pre_pass(s);
    let c = collapse(q);
    let r = normalized(s);
    lemma_pre_clean(s);
    lemma_collapse_clean(q, 0);
    lemma_collapse_no_runs(q, 0);
    lemma_trim_front_preserves(c);
    lemma_trim_back_preserves(trim_front(c));
    lemma_trim_front_head(c);
    lemma_trim_back_head_last(trim_front(c));
    lemma_pre_id(r);
    lemma_collapse_id(r, 0);
    assert(r.skip(0) =~= r);
    lemma_trim_id(r);
}

/// Every character the first pass emits for all-whitespace input is a space.
proof fn lemma_pre_all_ws(s: Seq<char>)
    requires
        forall|k: int| 0 <= k < s.len() ==> is_ws(s[k]),
    ensures
        forall|k: int| 0 <= k < pre_pass(s).len() ==> pre_pass(s)[k] == ' ',
    decreases s.len(),
{
    if s.len() > 0 {
        lemma_pre_all_ws(s.drop_last());
        let r = pre_pass(s);
        let rest = pre_pass(s.drop_last());
        assert forall|k: int| 0 <= k < r.len() implies r[k] == ' ' by {
            if k < rest.len() {
                assert(r[k] == rest[k]);
            }
        }
    }
}

/// In a string of two or more spaces, nothing survives collapsing.
proof fn lemma_collapse_all_spaces(s: Seq<char>, p: int)
    requires
        s.len() >= 2,
        forall|k: int| 0 <= k < s.len() ==> s[k] == ' ',
        0 <= p,
    ensures
        collapse_from(s, p) == Seq::<char>::empty(),
    decreases s.len() - p,
{
    if p < s.len() {
        assert(!kept(s, p));
        lemma_collapse_all_spaces(s, p + 1);
    }
}

/// Trimming an all-whitespace string leaves nothing.
proof fn lemma_trim_front_all_ws(s: Seq<char>)
    requires
        forall|k: int| 0 <= k < s.len() ==> is_ws(s[k]),
    ensures
        trim_front(s) == Seq::<char>::empty(),
    decreases s.len(),
{
    if s.len() > 0 {
        lemma_trim_front_all_ws(s.drop_first());
    } else {
        assert(s =~= Seq::<char>::empty());
    }
}

/// Law: a text node of nothing but whitespace normalizes to the empty
/// string, so it contributes nothing to the output.
pub proof fn lemma_ws_only_empty(s: Seq<char>)
    requires
        forall|k: int| 0 <= k < s.len() ==> is_ws(s[k]),
    ensures
        normalized(s) == Seq::<char>::empty(),
{
    let q = pre_pass(s);
    lemma_pre_all_ws(s);
    if q.len() == 0 {
        assert(collapse(q) =~= Seq::<char>::empty());
    } else if q.len() == 1 {
        assert(collapse_from(q, 1) =~= Seq::<char>::empty());
        assert(collapse(q) =~= seq![q[0]]);
    } else {
        lemma_collapse_all_spaces(q, 0);
    }
    lemma_trim_front_all_ws(collapse(q));
}

/// Dropping leading whitespace is the same as skipping the leading
/// whitespace prefix.
proof fn lemma_trim_front_skip(s: Seq<char>, a: int)
    requires
        0 <= a <= s.len(),
        forall|k: int| 0 <= k < a ==> is_ws(s[k]),
        a == s.len() || !is_ws(s[a]),
    ensures
        trim_front(s) == s.skip(a),
    decreases a,
{
    if a == 0 {
        assert(s.skip(0) =~= s);
    } else {
        assert(is_ws(s[0]));
        assert(s.drop_first() =~= s.skip(1));
        lemma_trim_front_skip(s.skip(1), a - 1);
        assert(s.skip(1).skip(a - 1) =~= s.skip(a));
    }
}

/// Dropping trailing whitespace is the same as keeping the prefix that ends
/// where the trailing whitespace begins.
proof fn lemma_trim_back_take(s: Seq<char>, e: int)
    requires
        0 <= e <= s.len(),
        forall|k: int| e <= k < s.len() ==> is_ws(s[k]),
        e == 0 || !is_ws(s[e - 1]),
    ensures
        trim_back(s) == s.take(e),
    decreases s.len() - e,
{
    if e == s.len() {
        assert(s.take(e) =~= s);
    } else {
        assert(is_ws(s[s.len() - 1]));
        assert(s.drop_last() =~= s.take(s.len() - 1));
        lemma_trim_back_take(s.take(s.len() - 1), e);
        assert(s.take(s.len() - 1).take(e) =~= s.take(e));
    }
}

} // verus!
