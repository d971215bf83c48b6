//! Text utilities on which the engine's rules rest: splitting a column
//! definition into words, reading and writing decimal numbers, comparing
//! text in code-point order, and joining primary-key parts.
use vstd::prelude::*;

verus! {

/// The first position in `lo..hi` where `bad` holds, or `hi` when none does.
pub open spec fn first_where(lo: int, hi: int, bad: spec_fn(int) -> bool) -> int
    decreases hi - lo,
{
    if lo >= hi {
        hi
    } else if bad(lo) {
        lo
    } else {
        first_where(lo + 1, hi, bad)
    }
}

pub proof fn lemma_first_where(lo: int, hi: int, bad: spec_fn(int) -> bool)
    requires
        lo <= hi,
    ensures
        lo <= first_where(lo, hi, bad) <= hi,
        first_where(lo, hi, bad) < hi ==> bad(first_where(lo, hi, bad)),
        forall|j: int| lo <= j < first_where(lo, hi, bad) ==> !#[trigger] bad(j),
    decreases hi - lo,
{
    if lo < hi && !bad(lo) {
        lemma_first_where(lo + 1, hi, bad);
    }
}

pub proof fn lemma_first_where_at(lo: int, hi: int, bad: spec_fn(int) -> bool, i: int)
    requires
        lo <= i < hi,
        bad(i),
        forall|j: int| lo <= j < i ==> !#[trigger] bad(j),
    ensures
        first_where(lo, hi, bad) == i,
    decreases i - lo,
{
    if lo < i {
        lemma_first_where_at(lo + 1, hi, bad, i);
    }
}

pub open spec fn is_space(c: char) -> bool {
    c == ' ' || c == '\t' || c == '\n' || c == '\r'
}

/// The words of `s[i..]`, where `cur` holds the characters of the word read so far.
pub open spec fn words_from(s: Seq<char>, i: int, cur: Seq<char>) -> Seq<Seq<char>>
    decreases s.len() - i,
{
    if i >= s.len() {
        if cur.len() == 0 {
            Seq::empty()
        } else {
            seq![cur]
        }
    } else if is_space(s[i]) {
        if cur.len() == 0 {
            words_from(s, i + 1, cur)
        } else {
            seq![cur] + words_from(s, i + 1, Seq::empty())
        }
    } else {
        words_from(s, i + 1, cur.push(s[i]))
    }
}

/// The maximal runs of non-space characters of `s`, in order.
pub open spec fn words(s: Seq<char>) -> Seq<Seq<char>> {
    words_from(s, 0, Seq::empty())
}

pub open spec fn views_of(v: Seq<String>) -> Seq<Seq<char>> {
    v.map_values(|x: String| x@)
}

/// Splits `s` into its words.
pub fn split_words(s: &str) -> (r: Vec<String>)
    ensures
        views_of(r@) == words(s@),
{
    let n = s.unicode_len();
    let mut out: Vec<String> = Vec::new();
    let mut start: usize = 0;
    let mut i: usize = 0;
    proof {
        assert(s@.subrange(0, 0) =~= Seq::<char>::empty());
        assert(views_of(out@) + words(s@) =~= words(s@));
    }
    while i < n
        invariant
            n == s@.len(),
            start <= i <= n,
            views_of(out@) + words_from(s@, i as int, s@.subrange(start as int, i as int))
                == words(s@),
        decreases n - i,
    {
        let c = s.get_char(i);
        let ghost cur = s@.subrange(start as int, i as int);
        proof {
            if start == i {
                assert(cur =~= Seq::<char>::empty());
            }
        }
        if is_space_char(c) {
            if start < i {
                let w = String::from_str(s.substring_char(start, i));
                proof {
                    assert(views_of(out@.push(w)) =~= views_of(out@).push(w@));
                    assert(words_from(s@, i as int, cur) == seq![cur] + words_from(
                        s@,
                        i + 1,
                        Seq::empty(),
                    ));
                    assert(views_of(out@).push(w@) + words_from(s@, i + 1, Seq::empty())
                        =~= views_of(out@) + (seq![cur] + words_from(s@, i + 1, Seq::empty())));
                }
                out.push(w);
            }
            start = i + 1;
            proof {
                assert(s@.subrange(start as int, i + 1) =~= Seq::<char>::empty());
            }
        } else {
            proof {
                assert(s@.subrange(start as int, i + 1) =~= cur.push(c));
            }
        }
        i += 1;
    }
    let ghost cur = s@.subrange(start as int, n as int);
    if start < n {
        let w = String::from_str(s.substring_char(start, n));
        proof {
            assert(views_of(out@.push(w)) =~= views_of(out@).push(w@));
            assert(views_of(out@) + seq![cur] =~= views_of(out@).push(w@));
        }
        out.push(w);
    } else {
        proof {
            assert(views_of(out@) + Seq::<Seq<char>>::empty() =~= views_of(out@));
        }
    }
    out
}

fn is_space_char(c: char) -> (r: bool)
    ensures
        r == is_space(c),
{
    c == ' ' || c == '\t' || c == '\n' || c == '\r'
}

pub open spec fn is_digit(c: char) -> bool {
    '0' <= c && c <= '9'
}

pub open spec fn digit_value(c: char) -> nat {
    (c as int - 48) as nat
}

/// The number written by a run of decimal digits.
pub open spec fn digits_value(s: Seq<char>) -> nat
    decreases s.len(),
{
    if s.len() == 0 {
        0
    } else {
        digits_value(s.drop_last()) * 10 + digit_value(s.last())
    }
}

pub open spec fn all_digits(s: Seq<char>) -> bool {
    forall|i: int| 0 <= i < s.len() ==> is_digit(#[trigger] s[i])
}

/// The digits of an unsigned number, after an optional leading `+`.
pub open spec fn unsigned_digits(s: Seq<char>) -> Seq<char> {
    if s.len() > 0 && s[0] == '+' {
        s.drop_first()
    } else {
        s
    }
}

/// `s` is the text of a 64-bit unsigned integer: an optional `+`, then one
/// or more decimal digits whose value fits in 64 bits.
pub open spec fn parses_as_u64(s: Seq<char>) -> bool {
    let d = unsigned_digits(s);
    d.len() > 0 && all_digits(d) && digits_value(d) <= u64::MAX
}

pub open spec fn u64_value(s: Seq<char>) -> nat {
    digits_value(unsigned_digits(s))
}

proof fn lemma_digits_value_prefix(s: Seq<char>, k: int)
    requires
        0 <= k <= s.len(),
        all_digits(s),
    ensures
        digits_value(s.subrange(0, k)) <= digits_value(s),
    decreases s.len(),
{
    if k < s.len() {
        lemma_digits_value_prefix(s.drop_last(), k);
        assert(s.drop_last().subrange(0, k) =~= s.subrange(0, k));
    } else {
        assert(s.subrange(0, k) =~= s);
    }
}

/// Reads a 64-bit unsigned integer written in decimal.
pub fn parse_u64(s: &str) -> (r: Option<u64>)
    ensures
        r.is_some() == parses_as_u64(s@),
        r.is_some() ==> r.unwrap() as nat == u64_value(s@),
{
    let n = s.unicode_len();
    let mut i: usize = 0;
    if n > 0 && s.get_char(0) == '+' {
        i = 1;
    }
    let ghost d = unsigned_digits(s@);
    proof {
        assert(d =~= s@.subrange(i as int, n as int));
    }
    if i == n {
        return None;
    }
    let first = i;
    let mut value: u64 = 0;
    while i < n
        invariant
            n == s@.len(),
            first <= i <= n,
            d == unsigned_digits(s@),
            d =~= s@.subrange(first as int, n as int),
            all_digits(d.subrange(0, i - first)),
            value as nat == digits_value(d.subrange(0, i - first)),
        decreases n - i,
    {
        let c = s.get_char(i);
        let ghost k = i - first;
        proof {
            assert(d.subrange(0, k + 1).drop_last() =~= d.subrange(0, k));
            assert(d[k] == c);
        }
        if !('0' <= c && c <= '9') {
            proof {
                assert(!is_digit(d[k]));
                assert(!all_digits(d));
                assert(!parses_as_u64(s@));
            }
            return None;
        }
        let digit = (c as u32 - '0' as u32) as u64;
        proof {
            assert(digit == digit_value(c));
            assert(digits_value(d.subrange(0, k + 1)) == value * 10 + digit);
        }
        if value > 1844674407370955161 || (value == 1844674407370955161 && digit > 5) {
            proof {
                assert(all_digits(d.subrange(0, k + 1)));
                assert(value * 10 + digit > u64::MAX) by (nonlinear_arith)
                    requires
                        value > 1844674407370955161 || (value == 1844674407370955161 && digit > 5),
                ;
                if all_digits(d) {
                    lemma_digits_value_prefix(d, k + 1);
                    assert(digits_value(d) > u64::MAX);
                }
                assert(!parses_as_u64(s@));
            }
            return None;
        }
        value = value * 10 + digit;
        i += 1;
        proof {
            assert(all_digits(d.subrange(0, i - first)));
        }
    }
    proof {
        assert(d.subrange(0, n - first) =~= d);
    }
    Some(value)
}

pub open spec fn digit_char(d: nat) -> char {
    if d == 0 { '0' }
    else if d == 1 { '1' }
    else if d == 2 { '2' }
    else if d == 3 { '3' }
    else if d == 4 { '4' }
    else if d == 5 { '5' }
    else if d == 6 { '6' }
    else if d == 7 { '7' }
    else if d == 8 { '8' }
    else { '9' }
}

/// The decimal text of `n`, without leading zeros.
pub open spec fn decimal_of(n: nat) -> Seq<char>
    decreases n,
{
    if n < 10 {
        seq![digit_char(n)]
    } else {
        decimal_of(n / 10).push(digit_char(n % 10))
    }
}

fn digit_text(d: u64) -> (r: &'static str)
    requires
        d < 10,
    ensures
        r@ == seq![digit_char(d as nat)],
{
    proof {
        reveal_strlit("0");
        reveal_strlit("1");
        reveal_strlit("2");
        reveal_strlit("3");
        reveal_strlit("4");
        reveal_strlit("5");
        reveal_strlit("6");
        reveal_strlit("7");
        reveal_strlit("8");
        reveal_strlit("9");
    }
    let r = if d == 0 { "0" }
    else if d == 1 { "1" }
    else if d == 2 { "2" }
    else if d == 3 { "3" }
    else if d == 4 { "4" }
    else if d == 5 { "5" }
    else if d == 6 { "6" }
    else if d == 7 { "7" }
    else if d == 8 { "8" }
    else { "9" };
    assert(r@ =~= seq![digit_char(d as nat)]);
    r
}

fn append_decimal(n: u64, out: &mut String)
    ensures
        final(out)@ == old(out)@ + decimal_of(n as nat),
    decreases n,
{
    if n >= 10 {
        append_decimal(n / 10, out);
    }
    out.append(digit_text(n % 10));
    proof {
        if n >= 10 {
            assert(old(out)@ + decimal_of(n as nat) =~= old(out)@ + decimal_of((n / 10) as nat)
                + seq![digit_char((n % 10) as nat)]);
        } else {
            assert(old(out)@ + decimal_of(n as nat) =~= old(out)@ + seq![digit_char(n as nat)]);
        }
    }
}

/// Writes `n` in decimal.
pub fn u64_to_text(n: u64) -> (r: String)
    ensures
        r@ == decimal_of(n as nat),
{
    let mut out = String::new();
    append_decimal(n, &mut out);
    assert(out@ =~= decimal_of(n as nat));
    out
}

/// `a` comes strictly before `b` in code-point lexicographic order, the
/// order of Rust's `String`.
pub open spec fn text_less(a: Seq<char>, b: Seq<char>) -> bool
    decreases a.len(),
{
    if a.len() == 0 {
        b.len() > 0
    } else if b.len() == 0 {
        false
    } else if a[0] != b[0] {
        (a[0] as int) < (b[0] as int)
    } else {
        text_less(a.drop_first(), b.drop_first())
    }
}

pub proof fn lemma_text_less_irreflexive(a: Seq<char>)
    ensures
        !text_less(a, a),
    decreases a.len(),
{
    if a.len() > 0 {
        lemma_text_less_irreflexive(a.drop_first());
    }
}

pub proof fn lemma_text_less_transitive(a: Seq<char>, b: Seq<char>, c: Seq<char>)
    requires
        text_less(a, b),
        text_less(b, c),
    ensures
        text_less(a, c),
    decreases a.len(),
{
    if a.len() > 0 && b.len() > 0 && c.len() > 0 {
        if a[0] == b[0] && b[0] == c[0] {
            lemma_text_less_transitive(a.drop_first(), b.drop_first(), c.drop_first());
        }
    }
}

pub proof fn lemma_text_less_total(a: Seq<char>, b: Seq<char>)
    ensures
        a == b || text_less(a, b) || text_less(b, a),
    decreases a.len(),
{
    if a.len() > 0 && b.len() > 0 {
        if a[0] == b[0] {
            lemma_text_less_total(a.drop_first(), b.drop_first());
            if a.drop_first() == b.drop_first() {
                assert(a =~= seq![a[0]] + a.drop_first());
                assert(b =~= seq![b[0]] + b.drop_first());
            }
        } else {
            assert((a[0] as int) != (b[0] as int));
        }
    } else if a.len() == 0 && b.len() == 0 {
        assert(a =~= b);
    }
}

/// Compares two texts: `-1` when `a` comes first, `1` when `b` does, `0` when equal.
pub fn compare_text(a: &str, b: &str) -> (r: i8)
    ensures
        r == 0 <==> a@ == b@,
        r == -1 <==> text_less(a@, b@),
        r == 1 <==> text_less(b@, a@),
{
    let na = a.unicode_len();
    let nb = b.unicode_len();
    let mut i: usize = 0;
    proof {
        lemma_text_less_irreflexive(a@);
        lemma_text_less_total(a@, b@);
        assert(a@.subrange(0, 0) =~= b@.subrange(0, 0));
        assert(a@.subrange(0, na as int) =~= a@);
        assert(b@.subrange(0, nb as int) =~= b@);
    }
    while i < na && i < nb
        invariant
            na == a@.len(),
            nb == b@.len(),
            i <= na,
            i <= nb,
            a@.subrange(0, i as int) == b@.subrange(0, i as int),
            text_less(a@, b@) == text_less(a@.subrange(i as int, na as int), b@.subrange(i as int, nb as int)),
            text_less(b@, a@) == text_less(b@.subrange(i as int, nb as int), a@.subrange(i as int, na as int)),
        decreases na - i,
    {
        let ca = a.get_char(i);
        let cb = b.get_char(i);
        let ghost ra = a@.subrange(i as int, na as int);
        let ghost rb = b@.subrange(i as int, nb as int);
        proof {
            assert(ra[0] == ca);
            assert(rb[0] == cb);
        }
        if ca != cb {
            proof {
                lemma_text_less_irreflexive(a@);
                lemma_text_less_total(a@, b@);
                assert(a@ != b@) by {
                    assert(a@[i as int] == ca);
                    assert(b@[i as int] == cb);
                }
            }
            if (ca as u32) < (cb as u32) {
                return -1;
            } else {
                return 1;
            }
        }
        proof {
            assert(ra.drop_first() =~= a@.subrange(i + 1, na as int));
            assert(rb.drop_first() =~= b@.subrange(i + 1, nb as int));
            assert(a@.subrange(0, i + 1) =~= a@.subrange(0, i as int).push(ca));
            assert(b@.subrange(0, i + 1) =~= b@.subrange(0, i as int).push(cb));
        }
        i += 1;
    }
    proof {
        lemma_text_less_irreflexive(a@);
        lemma_text_less_total(a@, b@);
        if na == nb {
            assert(a@ =~= a@.subrange(0, i as int));
            assert(b@ =~= b@.subrange(0, i as int));
        } else if i == na {
            assert(a@.subrange(i as int, na as int).len() == 0);
            assert(a@ != b@);
        } else {
            assert(b@.subrange(i as int, nb as int).len() == 0);
            assert(a@ != b@);
        }
    }
    if na == nb {
        0
    } else if i == na {
        -1
    } else {
        1
    }
}

/// The `|`-joined concatenation of the parts.
pub open spec fn join_key(parts: Seq<Seq<char>>) -> Seq<char>
    decreases parts.len(),
{
    if parts.len() == 0 {
        Seq::empty()
    } else if parts.len() == 1 {
        parts[0]
    } else {
        join_key(parts.drop_last()) + seq!['|'] + parts.last()
    }
}

/// Joins the parts of a composite key with `|`.
pub fn join_parts(parts: &Vec<String>) -> (r: String)
    ensures
        r@ == join_key(views_of(parts@)),
{
    let mut out = String::new();
    let mut i: usize = 0;
    proof {
        reveal_strlit("|");
        assert(views_of(parts@).subrange(0, 0) =~= Seq::<Seq<char>>::empty());
    }
    while i < parts.len()
        invariant
            i <= parts@.len(),
            out@ == join_key(views_of(parts@).subrange(0, i as int)),
        decreases parts@.len() - i,
    {
        let ghost pre = views_of(parts@).subrange(0, i as int);
        let ghost next = views_of(parts@).subrange(0, i + 1);
        proof {
            assert(next.drop_last() =~= pre);
        }
        proof {
            reveal_strlit("|");
        }
        if i > 0 {
            out.append("|");
        }
        out.append(parts[i].as_str());
        proof {
            assert(next.last() == parts@[i as int]@);
            if i == 0 {
                assert(out@ =~= next[0]);
            } else {
                assert(out@ =~= join_key(pre) + seq!['|'] + next.last());
            }
        }
        i += 1;
    }
    proof {
        assert(views_of(parts@).subrange(0, parts@.len() as int) =~= views_of(parts@));
    }
    out
}

/// `name` spells `upper` with any of its ASCII capitals written in lower case.
pub open spec fn same_ignoring_ascii_case(name: Seq<char>, upper: Seq<char>) -> bool {
    name.len() == upper.len() && forall|i: int|
        0 <= i < name.len() ==> #[trigger] name[i] == upper[i] || ('A' <= upper[i] && upper[i] <= 'Z'
            && name[i] as int == upper[i] as int + 32)
}

/// Tests whether `name` equals `upper` up to the case of ASCII letters.
pub fn eq_ignoring_ascii_case(name: &str, upper: &str) -> (r: bool)
    ensures
        r == same_ignoring_ascii_case(name@, upper@),
{
    let n = name.unicode_len();
    let m = upper.unicode_len();
    if n != m {
        return false;
    }
    let mut i: usize = 0;
    while i < n
        invariant
            n == name@.len(),
            m == upper@.len(),
            n == m,
            i <= n,
            forall|j: int|
                0 <= j < i ==> #[trigger] name@[j] == upper@[j] || ('A' <= upper@[j] && upper@[j]
                    <= 'Z' && name@[j] as int == upper@[j] as int + 32),
        decreases n - i,
    {
        let a = name.get_char(i);
        let b = upper.get_char(i);
        if !(a == b || ('A' <= b && b <= 'Z' && (a as u32) == (b as u32) + 32)) {
            return false;
        }
        i += 1;
    }
    true
}

} // verus!
