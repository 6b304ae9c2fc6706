use vstd::prelude::*;

verus! {

// --- ASCII character classes -------------------------------------------------

/// ASCII whitespace, as `trim` understands it: space, TAB, LF, VT, FF, CR.
pub open spec fn is_ws(b: u8) -> bool {
    b == 32 || (9 <= b && b <= 13)
}

/// Lower-case image of an ASCII byte; other bytes are unchanged.
pub open spec fn lower(b: u8) -> u8 {
    if 65 <= b && b <= 90 {
        (b + 32) as u8
    } else {
        b
    }
}

/// ASCII-case-insensitive equality of two byte sequences.
pub open spec fn eq_icase(a: Seq<u8>, b: Seq<u8>) -> bool {
    a.len() == b.len() && forall|i: int| 0 <= i < a.len() ==> lower(#[trigger] a[i]) == lower(b[i])
}

pub open spec fn is_digit(b: u8) -> bool {
    48 <= b && b <= 57
}

pub open spec fn all_digits(s: Seq<u8>) -> bool {
    forall|i: int| 0 <= i < s.len() ==> is_digit(#[trigger] s[i])
}

// --- exec counterparts of the classes ---------------------------------------

pub fn is_ws_byte(b: u8) -> (r: bool)
    ensures
        r == is_ws(b),
{
    b == 32 || (9 <= b && b <= 13)
}

pub fn lower_byte(b: u8) -> (r: u8)
    ensures
        r == lower(b),
{
    if 65 <= b && b <= 90 {
        b + 32
    } else {
        b
    }
}

pub fn is_digit_byte(b: u8) -> (r: bool)
    ensures
        r == is_digit(b),
{
    48 <= b && b <= 57
}

// --- byte-sequence comparisons -----------------------------------------------

pub fn eq_bytes(a: &[u8], b: &[u8]) -> (r: bool)
    ensures
        r == (a@ == b@),
{
    if a.len() != b.len() {
        assert(a@ != b@) by {
            assert(a@.len() != b@.len());
        }
        return false;
    }
    let n: usize = a.len();
    let mut i: usize = 0;
    while i < n
        invariant
            0 <= i <= n,
            n == a@.len() == b@.len(),
            forall|j: int| 0 <= j < i ==> a@[j] == b@[j],
        decreases n - i,
    {
        if a[i] != b[i] {
            assert(a@ != b@);
            return false;
        }
        i = i + 1;
    }
    assert(a@ =~= b@);
    true
}

pub fn eq_bytes_icase(a: &[u8], b: &[u8]) -> (r: bool)
    ensures
        r == eq_icase(a@, b@),
{
    if a.len() != b.len() {
        return false;
    }
    let n: usize = a.len();
    let mut i: usize = 0;
    while i < n
        invariant
            0 <= i <= n,
            n == a@.len() == b@.len(),
            forall|j: int| 0 <= j < i ==> lower(#[trigger] a@[j]) == lower(b@[j]),
        decreases n - i,
    {
        if lower_byte(a[i]) != lower_byte(b[i]) {
            return false;
        }
        i = i + 1;
    }
    true
}

// --- searching ----------------------------------------------------------------

/// Index of the first occurrence of `t` in `s` at or after `from`.
pub open spec fn spec_find(s: Seq<u8>, from: int, t: u8) -> Option<int>
    decreases s.len() - from,
{
    if from < 0 || from >= s.len() {
        None
    } else if s[from] == t {
        Some(from)
    } else {
        spec_find(s, from + 1, t)
    }
}

pub proof fn lemma_find(s: Seq<u8>, from: int, t: u8)
    requires
        0 <= from,
    ensures
        match spec_find(s, from, t) {
            Some(i) => from <= i < s.len() && s[i] == t && forall|j: int|
                from <= j < i ==> s[j] != t,
            None => forall|j: int| from <= j < s.len() ==> s[j] != t,
        },
    decreases s.len() - from,
{
    if from < s.len() && s[from] != t {
        lemma_find(s, from + 1, t);
    }
}

pub fn find_byte(v: &[u8], from: usize, t: u8) -> (r: Option<usize>)
    ensures
        match r {
            Some(i) => spec_find(v@, from as int, t) == Some(i as int) && from <= i < v@.len(),
            None => spec_find(v@, from as int, t) is None,
        },
{
    let n: usize = v.len();
    let mut i: usize = from;
    while i < n
        invariant
            from <= i,
            n == v@.len(),
            spec_find(v@, from as int, t) == spec_find(v@, i as int, t),
        decreases n - i,
    {
        if v[i] == t {
            return Some(i);
        }
        i = i + 1;
    }
    None
}

/// Where the first occurrence is known, `spec_find` finds it.
pub proof fn lemma_find_at(s: Seq<u8>, from: int, t: u8, k: int)
    requires
        0 <= from <= k < s.len(),
        s[k] == t,
        forall|j: int| from <= j < k ==> s[j] != t,
    ensures
        spec_find(s, from, t) == Some(k),
    decreases k - from,
{
    if from < k {
        lemma_find_at(s, from + 1, t, k);
    }
}

/// `spec_find` looks the same from `k + from` as from `from` of the suffix.
pub proof fn lemma_find_shift(s: Seq<u8>, k: int, from: int, t: u8)
    requires
        0 <= k <= s.len(),
        0 <= from,
    ensures
        spec_find(s, k + from, t) == match spec_find(s.skip(k), from, t) {
            Option::Some(i) => Option::Some(i + k),
            Option::None => Option::<int>::None,
        },
    decreases s.len() - k - from,
{
    let u = s.skip(k);
    if k + from >= s.len() {
    } else {
        assert(u[from] == s[k + from]);
        if s[k + from] == t {
        } else {
            lemma_find_shift(s, k, from + 1, t);
        }
    }
}

// --- copying ------------------------------------------------------------------

/// A fresh `Vec` holding `v[a..b]`.
pub fn copy_range(v: &[u8], a: usize, b: usize) -> (r: Vec<u8>)
    requires
        a <= b <= v@.len(),
    ensures
        r@ == v@.subrange(a as int, b as int),
{
    let part: &[u8] = &v[a..b];
    vstd::slice::slice_to_vec(part)
}

/// Append `src` to `dst`.
pub fn extend_bytes(dst: &mut Vec<u8>, src: &[u8])
    ensures
        final(dst)@ == old(dst)@ + src@,
{
    let n: usize = src.len();
    let mut i: usize = 0;
    while i < n
        invariant
            0 <= i <= n,
            n == src@.len(),
            dst@ == old(dst)@ + src@.take(i as int),
        decreases n - i,
    {
        dst.push(src[i]);
        assert(old(dst)@ + src@.take(i as int) + seq![src@[i as int]] =~= old(dst)@ + src@.take(
            i + 1,
        ));
        i = i + 1;
    }
    assert(src@.take(n as int) =~= src@);
    assert(dst@ =~= old(dst)@ + src@);
}

// --- trimming -----------------------------------------------------------------

pub open spec fn trim_start(s: Seq<u8>) -> Seq<u8>
    decreases s.len(),
{
    if s.len() > 0 && is_ws(s[0]) {
        trim_start(s.drop_first())
    } else {
        s
    }
}

pub open spec fn trim_end(s: Seq<u8>) -> Seq<u8>
    decreases s.len(),
{
    if s.len() > 0 && is_ws(s.last()) {
        trim_end(s.drop_last())
    } else {
        s
    }
}

/// `s` with all leading and trailing ASCII whitespace removed.
pub open spec fn spec_trim(s: Seq<u8>) -> Seq<u8> {
    trim_end(trim_start(s))
}

proof fn lemma_trim_start_at(s: Seq<u8>, k: int)
    requires
        0 <= k <= s.len(),
        forall|j: int| 0 <= j < k ==> is_ws(#[trigger] s[j]),
        k == s.len() || !is_ws(s[k]),
    ensures
        trim_start(s) =~= s.subrange(k, s.len() as int),
    decreases k,
{
    if k == 0 {
        if s.len() > 0 && is_ws(s[0]) {
            assert(false);
        }
        assert(s.subrange(0, s.len() as int) =~= s);
    } else {
        assert(is_ws(s[0]));
        let t = s.drop_first();
        assert(forall|j: int| 0 <= j < k - 1 ==> is_ws(#[trigger] t[j]));
        lemma_trim_start_at(t, k - 1);
        assert(t.subrange(k - 1, t.len() as int) =~= s.subrange(k, s.len() as int));
    }
}

proof fn lemma_trim_end_at(s: Seq<u8>, k: int)
    requires
        0 <= k <= s.len(),
        forall|j: int| k <= j < s.len() ==> is_ws(#[trigger] s[j]),
        k == 0 || !is_ws(s[k - 1]),
    ensures
        trim_end(s) =~= s.subrange(0, k),
    decreases s.len() - k,
{
    if k == s.len() {
        if s.len() > 0 && is_ws(s.last()) {
            let t = s.drop_last();
            assert(forall|j: int| k - 1 <= j < t.len() ==> is_ws(#[trigger] t[j]));
            lemma_trim_end_at(t, k - 1);
            assert(t.subrange(0, k - 1) =~= s.subrange(0, k - 1));
            assert(trim_end(s) =~= s.subrange(0, k - 1));
            assert(is_ws(s[k - 1]));
            assert(k == 0 || !is_ws(s[k - 1]));
            assert(false);
        } else {
            assert(s.subrange(0, k) =~= s);
        }
    } else {
        assert(is_ws(s.last()));
        let t = s.drop_last();
        assert(forall|j: int| k <= j < t.len() ==> is_ws(#[trigger] t[j]));
        lemma_trim_end_at(t, k);
        assert(t.subrange(0, k) =~= s.subrange(0, k));
    }
}

/// Trimming changes nothing where no surrounding whitespace is there.
pub proof fn lemma_trim_id(s: Seq<u8>)
    requires
        s.len() == 0 || (!is_ws(s[0]) && !is_ws(s.last())),
    ensures
        spec_trim(s) == s,
{
    lemma_trim_start_at(s, 0);
    assert(s.subrange(0, s.len() as int) =~= s);
    lemma_trim_end_at(s, s.len() as int);
}

/// Trimming strips a single leading space from an otherwise trimmed value.
pub proof fn lemma_trim_leading_space(v: Seq<u8>)
    requires
        v.len() == 0 || (!is_ws(v[0]) && !is_ws(v.last())),
    ensures
        spec_trim(seq![32u8] + v) == v,
{
    let s = seq![32u8] + v;
    assert(is_ws(s[0]));
    assert(forall|j: int| 1 <= j < s.len() ==> s[j] == v[j - 1]);
    lemma_trim_start_at(s, 1);
    assert(s.subrange(1, s.len() as int) =~= v);
    lemma_trim_end_at(v, v.len() as int);
    assert(v.subrange(0, v.len() as int) =~= v);
}

/// A fresh `Vec` holding `v` with surrounding ASCII whitespace removed.
pub fn trim(v: &[u8]) -> (r: Vec<u8>)
    ensures
        r@ == spec_trim(v@),
{
    let n: usize = v.len();
    let mut a: usize = 0;
    while a < n && is_ws_byte(v[a])
        invariant
            0 <= a <= n,
            n == v@.len(),
            forall|j: int| 0 <= j < a ==> is_ws(#[trigger] v@[j]),
        decreases n - a,
    {
        a = a + 1;
    }
    proof {
        lemma_trim_start_at(v@, a as int);
    }
    let mut b: usize = n;
    while b > a && is_ws_byte(v[b - 1])
        invariant
            a <= b <= n,
            n == v@.len(),
            forall|j: int| b <= j < n ==> is_ws(#[trigger] v@[j]),
        decreases b,
    {
        b = b - 1;
    }
    proof {
        let m = v@.subrange(a as int, n as int);
        assert(forall|j: int| b - a <= j < m.len() ==> is_ws(#[trigger] m[j]));
        if b > a {
            assert(!is_ws(m[b - a - 1]));
        }
        lemma_trim_end_at(m, b - a);
        assert(m.subrange(0, b - a) =~= v@.subrange(a as int, b as int));
    }
    copy_range(v, a, b)
}

// --- decimal numbers ----------------------------------------------------------

/// Value of a string of decimal digits (most significant first).
pub open spec fn dec_val(s: Seq<u8>) -> int
    decreases s.len(),
{
    if s.len() == 0 {
        0
    } else {
        dec_val(s.drop_last()) * 10 + s.last() - 48
    }
}

/// The digit part of a number: everything after an optional leading `+`.
pub open spec fn num_tail(s: Seq<u8>) -> Seq<u8> {
    if s.len() > 0 && s[0] == 43 {
        s.drop_first()
    } else {
        s
    }
}

/// What `usize::from_str` accepts: an optional `+`, then one or more digits.
/// `None` where the text is malformed; the bound check is the caller's.
pub open spec fn spec_parse_num(s: Seq<u8>) -> Option<int> {
    let t = num_tail(s);
    if t.len() > 0 && all_digits(t) {
        Some(dec_val(t))
    } else {
        None
    }
}

proof fn lemma_dec_val_bounds(s: Seq<u8>)
    requires
        all_digits(s),
    ensures
        0 <= dec_val(s),
        forall|i: int| 0 <= i <= s.len() ==> dec_val(#[trigger] s.take(i)) <= dec_val(s),
    decreases s.len(),
{
    if s.len() == 0 {
        assert(forall|i: int| 0 <= i <= s.len() ==> #[trigger] s.take(i) =~= s);
    } else {
        let t = s.drop_last();
        assert(all_digits(t));
        lemma_dec_val_bounds(t);
        assert(is_digit(s.last()));
        assert(dec_val(s) >= dec_val(t) * 10 + 0);
        assert(dec_val(t) * 10 >= dec_val(t)) by (nonlinear_arith)
            requires dec_val(t) >= 0;
        assert forall|i: int| 0 <= i <= s.len() implies dec_val(#[trigger] s.take(i)) <= dec_val(
            s,
        ) by {
            if i == s.len() {
                assert(s.take(i) =~= s);
            } else {
                assert(s.take(i) =~= t.take(i));
                assert(dec_val(t.take(i)) <= dec_val(t));
            }
        }
    }
}

/// A number that parses at all is non-negative.
pub proof fn lemma_parse_num_nonneg(s: Seq<u8>)
    ensures
        spec_parse_num(s) matches Some(n) ==> n >= 0,
{
    if spec_parse_num(s) is Some {
        lemma_dec_val_bounds(num_tail(s));
    }
}

/// Parse a decimal number the way `usize::from_str` does; `None` on malformed
/// text or a value that does not fit `usize`.
pub fn parse_num(v: &[u8]) -> (r: Option<usize>)
    ensures
        match spec_parse_num(v@) {
            Some(n) => n >= 0 && if n <= usize::MAX {
                r == Some(n as usize)
            } else {
                r is None
            },
            None => r is None,
        },
{
    proof {
        if spec_parse_num(v@) is Some {
            lemma_dec_val_bounds(num_tail(v@));
        }
    }
    let n: usize = v.len();
    let start: usize = if n > 0 && v[0] == 43 {
        1
    } else {
        0
    };
    let ghost t = num_tail(v@);
    assert(t =~= v@.subrange(start as int, n as int));
    if start == n {
        return None;
    }
    let mut i: usize = start;
    let mut acc: usize = 0;
    while i < n
        invariant
            start <= i <= n,
            n == v@.len(),
            start < n,
            t == num_tail(v@),
            t =~= v@.subrange(start as int, n as int),
            all_digits(t.take(i - start)),
            acc == dec_val(t.take(i - start)),
        decreases n - i,
    {
        let b = v[i];
        if !is_digit_byte(b) {
            assert(!all_digits(t)) by {
                assert(t[i - start] == b);
            }
            return None;
        }
        let d: usize = (b - 48) as usize;
        proof {
            assert(t.take(i - start + 1).drop_last() =~= t.take(i - start));
            assert(t.take(i - start + 1).last() == b);
        }
        let acc10 = match acc.checked_mul(10) {
            Some(x) => x,
            None => {
                proof {
                    assert(all_digits(t.take(i - start + 1)));
                    overflow_means_too_big(t, i - start + 1);
                }
                return None;
            },
        };
        let acc2 = match acc10.checked_add(d) {
            Some(x) => x,
            None => {
                proof {
                    assert(all_digits(t.take(i - start + 1)));
                    overflow_means_too_big(t, i - start + 1);
                }
                return None;
            },
        };
        acc = acc2;
        i = i + 1;
    }
    assert(t.take(n - start) =~= t);
    Some(acc)
}

/// If some prefix of the digits already exceeds `usize::MAX`, so does the whole.
proof fn overflow_means_too_big(t: Seq<u8>, k: int)
    requires
        0 < k <= t.len(),
        all_digits(t.take(k)),
        dec_val(t.take(k)) > usize::MAX,
    ensures
        all_digits(t) ==> dec_val(t) > usize::MAX,
{
    if all_digits(t) {
        lemma_dec_val_bounds(t);
        assert(dec_val(t.take(k)) <= dec_val(t));
    }
}

/// Decimal text of a non-negative number, most significant digit first.
pub open spec fn dec_of(n: int) -> Seq<u8>
    decreases n,
{
    if n < 10 {
        seq![(48 + n) as u8]
    } else {
        dec_of(n / 10).push((48 + n % 10) as u8)
    }
}

/// Render `n` in decimal.
pub fn usize_to_dec(n: usize) -> (r: Vec<u8>)
    ensures
        r@ == dec_of(n as int),
    decreases n,
{
    if n < 10 {
        let mut r: Vec<u8> = Vec::new();
        r.push(48 + (n as u8));
        assert(r@ =~= dec_of(n as int));
        r
    } else {
        let mut r = usize_to_dec(n / 10);
        r.push(48 + ((n % 10) as u8));
        assert(r@ =~= dec_of(n as int));
        r
    }
}

} // verus!
