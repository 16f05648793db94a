use vstd::prelude::*;

verus! {

/// ASCII horizontal tab, the field separator of every input table.
pub const TAB: u8 = 9;
/// ASCII line feed, the record separator of the chromosome-length table.
pub const NL: u8 = 10;
/// ASCII decimal point.
pub const DOT: u8 = 46;
/// ASCII plus sign.
pub const PLUS: u8 = 43;

/// ASCII whitespace, as trimmed from the edges of a length-table line.
pub open spec fn is_space(b: u8) -> bool {
    b == 32 || b == 9 || b == 10 || b == 13 || b == 11 || b == 12
}

/// ASCII decimal digit.
pub open spec fn is_digit(b: u8) -> bool {
    48 <= b <= 57
}

/// Index of the first occurrence of `sep` in `s`, or `s.len()` if none occurs.
pub open spec fn first_sep(s: Seq<u8>, sep: u8) -> int
    decreases s.len(),
{
    if s.len() == 0 {
        0
    } else if s[0] == sep {
        0
    } else {
        1 + first_sep(s.skip(1), sep)
    }
}

/// A position before which `sep` never occurs, and which holds `sep` or is the
/// end of the sequence, is exactly `first_sep`.
pub proof fn lemma_first_sep_at(s: Seq<u8>, sep: u8, m: int)
    requires
        0 <= m <= s.len(),
        forall|j: int| 0 <= j < m ==> s[j] != sep,
        m < s.len() ==> s[m] == sep,
    ensures
        first_sep(s, sep) == m,
    decreases s.len(),
{
    if s.len() == 0 {
    } else if s[0] == sep {
        assert(m == 0);
    } else {
        assert(m >= 1);
        assert forall|j: int| 0 <= j < m - 1 implies s.skip(1)[j] != sep by {
            assert(s.skip(1)[j] == s[j + 1]);
        }
        if m - 1 < s.skip(1).len() {
            assert(s.skip(1)[m - 1] == s[m]);
        }
        lemma_first_sep_at(s.skip(1), sep, m - 1);
    }
}

/// The `n`-th tab-separated (or generally `sep`-separated) field of `s`,
/// counting from zero; `None` when `s` has at most `n` separators short of
/// what the field needs.
pub open spec fn nth_field(s: Seq<u8>, n: nat, sep: u8) -> Option<Seq<u8>>
    decreases n,
{
    let k = first_sep(s, sep);
    if n == 0 {
        Some(s.take(k))
    } else if k < s.len() {
        nth_field(s.skip(k + 1), (n - 1) as nat, sep)
    } else {
        None
    }
}

/// Copies `s[a..b]` into a fresh vector.
pub fn copy_range(s: &Vec<u8>, a: usize, b: usize) -> (r: Vec<u8>)
    requires
        a <= b <= s@.len(),
    ensures
        r@ == s@.subrange(a as int, b as int),
{
    let mut r: Vec<u8> = Vec::new();
    let mut i: usize = a;
    while i < b
        invariant
            a <= i <= b <= s@.len(),
            r@ == s@.subrange(a as int, i as int),
        decreases b - i,
    {
        r.push(s[i]);
        i = i + 1;
        proof {
            assert(r@ =~= s@.subrange(a as int, i as int));
        }
    }
    r
}

/// Position of the first `sep` at or after `from`, or `s.len()` if none.
pub fn find_from(s: &Vec<u8>, from: usize, sep: u8) -> (k: usize)
    requires
        from <= s@.len(),
    ensures
        from <= k <= s@.len(),
        k - from == first_sep(s@.skip(from as int), sep),
        k < s@.len() ==> s@[k as int] == sep,
        forall|j: int| from <= j < k ==> s@[j] != sep,
{
    let mut i: usize = from;
    while i < s.len() && s[i] != sep
        invariant
            from <= i <= s@.len(),
            forall|j: int| from <= j < i ==> s@[j] != sep,
        decreases s@.len() - i,
    {
        i = i + 1;
    }
    proof {
        let t = s@.skip(from as int);
        assert forall|j: int| 0 <= j < i - from implies t[j] != sep by {
            assert(t[j] == s@[j + from]);
        }
        if i - from < t.len() {
            assert(t[i - from] == s@[i as int]);
        }
        lemma_first_sep_at(t, sep, i - from);
    }
    i
}

/// Byte range `[a, b)` of the `n`-th `sep`-separated field of `s`, or `None`
/// when `s` has fewer than `n + 1` fields.
pub fn nth_field_range(s: &Vec<u8>, n: usize, sep: u8) -> (r: Option<(usize, usize)>)
    ensures
        match r {
            Some(range) => range.0 <= range.1 <= s@.len()
                && nth_field(s@, n as nat, sep)
                    == Some(s@.subrange(range.0 as int, range.1 as int)),
            None => nth_field(s@, n as nat, sep) is None,
        },
{
    let mut start: usize = 0;
    let mut rem: usize = n;
    proof {
        assert(s@.skip(0) =~= s@);
    }
    loop
        invariant
            start <= s@.len(),
            nth_field(s@, n as nat, sep) == nth_field(s@.skip(start as int), rem as nat, sep),
        decreases rem,
    {
        let k = find_from(s, start, sep);
        proof {
            let t = s@.skip(start as int);
            assert(first_sep(t, sep) == k - start);
            if rem == 0 {
                assert(t.take(k - start) =~= s@.subrange(start as int, k as int));
            } else if k < s.len() {
                assert(t.skip(k - start + 1) =~= s@.skip(k + 1));
            }
        }
        if rem == 0 {
            return Some((start, k));
        }
        if k == s.len() {
            return None;
        }
        start = k + 1;
        rem = rem - 1;
    }
}

/// Powers of ten.
pub open spec fn pow10(n: nat) -> int
    decreases n,
{
    if n == 0 {
        1
    } else {
        10 * pow10((n - 1) as nat)
    }
}

pub proof fn lemma_pow10_mono(a: nat, b: nat)
    requires
        a <= b,
    ensures
        1 <= pow10(a) <= pow10(b),
    decreases b,
{
    if a == b {
        if a > 0 {
            lemma_pow10_mono((a - 1) as nat, (a - 1) as nat);
        }
    } else {
        lemma_pow10_mono(a, (b - 1) as nat);
    }
}

pub proof fn lemma_pow10_mul(a: nat, b: nat)
    ensures
        pow10(a) * pow10(b) == pow10(a + b),
    decreases a,
{
    if a == 0 {
    } else {
        lemma_pow10_mul((a - 1) as nat, b);
        assert(pow10(a) * pow10(b) == 10 * (pow10((a - 1) as nat) * pow10(b)))
            by (nonlinear_arith)
            requires pow10(a) == 10 * pow10((a - 1) as nat),
        ;
    }
}

/// Powers of ten as a machine word, for scaling fraction digits.
pub fn pow10_u64(n: usize) -> (r: u64)
    requires
        n <= 9,
    ensures
        r == pow10(n as nat),
{
    let mut r: u64 = 1;
    let mut i: usize = 0;
    while i < n
        invariant
            i <= n <= 9,
            r == pow10(i as nat),
        decreases n - i,
    {
        proof {
            lemma_pow10_mono(i as nat, 8);
            assert(pow10(0) == 1);
            assert(pow10(1) == 10);
            assert(pow10(2) == 100);
            assert(pow10(3) == 1000);
            assert(pow10(4) == 10000);
            assert(pow10(5) == 100000);
            assert(pow10(6) == 1000000);
            assert(pow10(7) == 10000000);
            assert(pow10(8) == 100000000);
        }
        r = r * 10;
        i = i + 1;
    }
    r
}

/// Every byte of `s` is an ASCII digit.
pub open spec fn all_digits(s: Seq<u8>) -> bool {
    forall|i: int| 0 <= i < s.len() ==> is_digit(s[i])
}

/// Value of a run of ASCII digits read as a decimal number.
pub open spec fn digits_val(s: Seq<u8>) -> int
    decreases s.len(),
{
    if s.len() == 0 {
        0
    } else {
        digits_val(s.drop_last()) * 10 + (s.last() - 48)
    }
}

pub proof fn lemma_digits_val_bounds(s: Seq<u8>)
    requires
        all_digits(s),
    ensures
        0 <= digits_val(s) < pow10(s.len()),
    decreases s.len(),
{
    if s.len() == 0 {
    } else {
        assert(all_digits(s.drop_last()));
        lemma_digits_val_bounds(s.drop_last());
        assert(is_digit(s.last()));
    }
}

/// A digit run is worth at least any of its prefixes.
pub proof fn lemma_digits_val_prefix_le(s: Seq<u8>, i: int)
    requires
        all_digits(s),
        0 <= i <= s.len(),
    ensures
        digits_val(s.take(i)) <= digits_val(s),
    decreases s.len(),
{
    if i == s.len() {
        assert(s.take(i) =~= s);
    } else {
        assert(all_digits(s.drop_last()));
        assert(s.drop_last().take(i) =~= s.take(i));
        lemma_digits_val_prefix_le(s.drop_last(), i);
        lemma_digits_val_bounds(s.drop_last());
        assert(is_digit(s.last()));
    }
}

/// Parses a non-empty run of ASCII digits as a `u64`.
pub fn parse_digits_u64(s: &Vec<u8>) -> (r: Option<u64>)
    ensures
        match r {
            Some(v) => s@.len() > 0 && all_digits(s@) && v == digits_val(s@),
            None => s@.len() == 0 || !all_digits(s@) || digits_val(s@) > u64::MAX,
        },
{
    if s.len() == 0 {
        return None;
    }
    let mut val: u64 = 0;
    let mut i: usize = 0;
    while i < s.len()
        invariant
            0 <= i <= s@.len(),
            all_digits(s@.take(i as int)),
            val == digits_val(s@.take(i as int)),
        decreases s@.len() - i,
    {
        let b = s[i];
        if !(48 <= b && b <= 57) {
            proof {
                assert(!is_digit(s@[i as int]));
            }
            return None;
        }
        let d = (b - 48) as u64;
        proof {
            assert(s@.take(i + 1).drop_last() =~= s@.take(i as int));
            assert(s@.take(i + 1).last() == s@[i as int]);
            assert(all_digits(s@.take(i + 1)));
        }
        let next = match val.checked_mul(10) {
            Some(m) => m.checked_add(d),
            None => None,
        };
        match next {
            None => {
                proof {
                    assert(digits_val(s@.take(i + 1)) == val * 10 + d);
                    assert(digits_val(s@.take(i + 1)) > u64::MAX);
                    if all_digits(s@) {
                        lemma_digits_val_prefix_le(s@, i + 1);
                    }
                }
                return None;
            },
            Some(nv) => {
                val = nv;
                i = i + 1;
            },
        }
    }
    proof {
        assert(s@.take(i as int) =~= s@);
    }
    Some(val)
}

/// Value of a chromosome length written as a decimal integer with an
/// optional leading plus, when it fits a machine word; `None` otherwise.
pub open spec fn parse_len_spec(s: Seq<u8>) -> Option<int> {
    let d = if s.len() > 0 && s[0] == PLUS {
        s.skip(1)
    } else {
        s
    };
    if d.len() > 0 && all_digits(d) && digits_val(d) <= usize::MAX {
        Some(digits_val(d))
    } else {
        None
    }
}

/// Parses a chromosome length.
pub fn parse_len(s: &Vec<u8>) -> (r: Option<usize>)
    ensures
        match r {
            Some(v) => parse_len_spec(s@) == Some(v as int),
            None => parse_len_spec(s@) is None,
        },
{
    let d: Vec<u8> = if s.len() > 0 && s[0] == PLUS {
        copy_range(s, 1, s.len())
    } else {
        copy_range(s, 0, s.len())
    };
    proof {
        if s@.len() > 0 && s@[0] == PLUS {
            assert(d@ =~= s@.skip(1));
        } else {
            assert(d@ =~= s@);
        }
    }
    match parse_digits_u64(&d) {
        None => None,
        Some(v) => {
            if v <= usize::MAX as u64 {
                Some(v as usize)
            } else {
                None
            }
        },
    }
}

/// Drops ASCII whitespace from the front of a sequence.
pub open spec fn trim_front(s: Seq<u8>) -> Seq<u8>
    decreases s.len(),
{
    if s.len() > 0 && is_space(s[0]) {
        trim_front(s.skip(1))
    } else {
        s
    }
}

/// Drops ASCII whitespace from the back of a sequence.
pub open spec fn trim_back(s: Seq<u8>) -> Seq<u8>
    decreases s.len(),
{
    if s.len() > 0 && is_space(s.last()) {
        trim_back(s.drop_last())
    } else {
        s
    }
}

/// Drops ASCII whitespace from both edges.
pub open spec fn trim_spec(s: Seq<u8>) -> Seq<u8> {
    trim_back(trim_front(s))
}

pub proof fn lemma_trim_front_at(s: Seq<u8>, a: int)
    requires
        0 <= a <= s.len(),
        forall|j: int| 0 <= j < a ==> is_space(s[j]),
        a < s.len() ==> !is_space(s[a]),
    ensures
        trim_front(s) == s.skip(a),
    decreases s.len(),
{
    if a == 0 {
        if s.len() > 0 && is_space(s[0]) {
            assert(false);
        }
        assert(s.skip(0) =~= s);
    } else {
        assert(is_space(s[0]));
        assert forall|j: int| 0 <= j < a - 1 implies is_space(s.skip(1)[j]) by {
            assert(s.skip(1)[j] == s[j + 1]);
        }
        if a - 1 < s.skip(1).len() {
            assert(s.skip(1)[a - 1] == s[a]);
        }
        lemma_trim_front_at(s.skip(1), a - 1);
        assert(s.skip(1).skip(a - 1) =~= s.skip(a));
    }
}

pub proof fn lemma_trim_back_at(s: Seq<u8>, b: int)
    requires
        0 <= b <= s.len(),
        forall|j: int| b <= j < s.len() ==> is_space(s[j]),
        b > 0 ==> !is_space(s[b - 1]),
    ensures
        trim_back(s) == s.take(b),
    decreases s.len(),
{
    if b == s.len() {
        if s.len() > 0 && is_space(s.last()) {
            assert(false);
        }
        assert(s.take(b) =~= s);
    } else {
        assert(is_space(s.last()));
        assert forall|j: int| b <= j < s.drop_last().len() implies is_space(s.drop_last()[j]) by {
            assert(s.drop_last()[j] == s[j]);
        }
        if b > 0 {
            assert(s.drop_last()[b - 1] == s[b - 1]);
        }
        lemma_trim_back_at(s.drop_last(), b);
        assert(s.drop_last().take(b) =~= s.take(b));
    }
}

pub fn is_space_b(b: u8) -> (r: bool)
    ensures
        r == is_space(b),
{
    b == 32 || b == 9 || b == 10 || b == 13 || b == 11 || b == 12
}

/// Copy of `s` with ASCII whitespace removed from both edges.
pub fn trim_bytes(s: &Vec<u8>) -> (r: Vec<u8>)
    ensures
        r@ == trim_spec(s@),
{
    let mut a: usize = 0;
    while a < s.len() && is_space_b(s[a])
        invariant
            0 <= a <= s@.len(),
            forall|j: int| 0 <= j < a ==> is_space(s@[j]),
        decreases s@.len() - a,
    {
        a = a + 1;
    }
    proof {
        lemma_trim_front_at(s@, a as int);
    }
    let mut b: usize = s.len();
    while b > a && is_space_b(s[b - 1])
        invariant
            a <= b <= s@.len(),
            forall|j: int| b <= j < s@.len() ==> is_space(s@[j]),
            a < s@.len() ==> !is_space(s@[a as int]),
        decreases b,
    {
        b = b - 1;
    }
    proof {
        let t = s@.skip(a as int);
        assert forall|j: int| b - a <= j < t.len() implies is_space(t[j]) by {
            assert(t[j] == s@[j + a]);
        }
        if b - a > 0 {
            assert(t[b - a - 1] == s@[b - 1]);
        }
        lemma_trim_back_at(t, b - a);
        assert(t.take(b - a) =~= s@.subrange(a as int, b as int));
    }
    copy_range(s, a, b)
}

} // verus!
