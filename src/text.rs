//! Character-level text handling: whitespace, trimming, splitting into words and reading
//! unsigned decimal numbers.
use vstd::prelude::*;

verus! {

/// The Unicode `White_Space` property, which is what `char::is_whitespace` tests.
pub open spec fn is_ws(c: char) -> bool {
    let u = c as u32;
    (0x9 <= u && u <= 0xd) || u == 0x20 || u == 0x85 || u == 0xa0 || u == 0x1680 || (0x2000 <= u
        && u <= 0x200a) || u == 0x2028 || u == 0x2029 || u == 0x202f || u == 0x205f || u == 0x3000
}

pub fn is_whitespace(c: char) -> (r: bool)
    ensures
        r == is_ws(c),
{
    let u = c as u32;
    (0x9 <= u && u <= 0xd) || u == 0x20 || u == 0x85 || u == 0xa0 || u == 0x1680 || (0x2000 <= u
        && u <= 0x200a) || u == 0x2028 || u == 0x2029 || u == 0x202f || u == 0x205f || u == 0x3000
}

/// `s` without its leading whitespace.
pub open spec fn trim_start(s: Seq<char>) -> Seq<char>
    decreases s.len(),
{
    if s.len() > 0 && is_ws(s[0]) {
        trim_start(s.drop_first())
    } else {
        s
    }
}

/// `s` without its trailing whitespace.
pub open spec fn trim_end(s: Seq<char>) -> Seq<char>
    decreases s.len(),
{
    if s.len() > 0 && is_ws(s.last()) {
        trim_end(s.drop_last())
    } else {
        s
    }
}

/// `s` without whitespace at either end.
pub open spec fn trim(s: Seq<char>) -> Seq<char> {
    trim_end(trim_start(s))
}

/// The views of a sequence of strings.
pub open spec fn views(v: Seq<String>) -> Seq<Seq<char>> {
    v.map_values(|t: String| t@)
}

/// Reading `s` left to right: the words completed so far, and the word being read.
pub open spec fn scan_words(s: Seq<char>) -> (Seq<Seq<char>>, Seq<char>)
    decreases s.len(),
{
    if s.len() == 0 {
        (seq![], seq![])
    } else {
        let (done, cur) = scan_words(s.drop_last());
        if !is_ws(s.last()) {
            (done, cur.push(s.last()))
        } else if cur.len() > 0 {
            (done.push(cur), seq![])
        } else {
            (done, cur)
        }
    }
}

/// The maximal runs of non-whitespace characters of `s`, in order.
pub open spec fn words(s: Seq<char>) -> Seq<Seq<char>> {
    let (done, cur) = scan_words(s);
    if cur.len() > 0 {
        done.push(cur)
    } else {
        done
    }
}

pub open spec fn is_digit(c: char) -> bool {
    0x30 <= (c as u32) && (c as u32) <= 0x39
}

pub open spec fn digit_value(c: char) -> nat {
    ((c as u32) - 0x30) as nat
}

/// The value of a string of decimal digits, most significant first.
pub open spec fn digits_value(s: Seq<char>) -> nat
    decreases s.len(),
{
    if s.len() == 0 {
        0
    } else {
        digits_value(s.drop_last()) * 10 + digit_value(s.last())
    }
}

pub open spec fn all_digits(s: Seq<char>) -> bool {
    forall|i: int| 0 <= i < s.len() ==> is_digit(#[trigger] s[i])
}

/// The digits of a number, after an optional leading `+`.
pub open spec fn unsigned_part(s: Seq<char>) -> Seq<char> {
    if s.len() > 0 && s[0] == '+' {
        s.drop_first()
    } else {
        s
    }
}

/// The `usize` that `s` writes in decimal: an optional `+`, then one or more digits, with a
/// value that fits.
pub open spec fn parse_usize(s: Seq<char>) -> Option<usize> {
    let d = unsigned_part(s);
    if d.len() > 0 && all_digits(d) && digits_value(d) <= usize::MAX {
        Some(digits_value(d) as usize)
    } else {
        None
    }
}

pub proof fn lemma_trim_start_step(s: Seq<char>, i: int)
    requires
        0 <= i < s.len(),
        is_ws(s[i]),
    ensures
        trim_start(s.subrange(i, s.len() as int)) == trim_start(s.subrange(i + 1, s.len() as int)),
{
    assert(s.subrange(i, s.len() as int).drop_first() =~= s.subrange(i + 1, s.len() as int));
}

pub proof fn lemma_trim_end_step(s: Seq<char>, j: int)
    requires
        0 < j <= s.len(),
        is_ws(s[j - 1]),
    ensures
        trim_end(s.subrange(0, j)) == trim_end(s.subrange(0, j - 1)),
{
    assert(s.subrange(0, j).drop_last() =~= s.subrange(0, j - 1));
}

pub proof fn lemma_digits_value_prefix(s: Seq<char>, k: int)
    requires
        0 <= k <= s.len(),
    ensures
        digits_value(s.take(k)) <= digits_value(s),
    decreases s.len(),
{
    if k < s.len() {
        lemma_digits_value_prefix(s.drop_last(), k);
        assert(s.drop_last().take(k) =~= s.take(k));
    } else {
        assert(s.take(k) =~= s);
    }
}

/// Removes whitespace from both ends of `s`.
pub fn trim_str(s: &str) -> (r: String)
    ensures
        r@ == trim(s@),
{
    let n = s.unicode_len();
    let mut i: usize = 0;
    assert(s@.subrange(0, n as int) =~= s@);
    while i < n && is_whitespace(s.get_char(i))
        invariant
            i <= n,
            n == s@.len(),
            trim_start(s@) == trim_start(s@.subrange(i as int, n as int)),
        decreases n - i,
    {
        proof {
            lemma_trim_start_step(s@, i as int);
        }
        i += 1;
    }
    let ghost mid = s@.subrange(i as int, n as int);
    assert(trim_start(s@) == mid) by {
        if i < n {
            assert(mid[0] == s@[i as int]);
        }
    }
    let mut j: usize = n;
    assert(mid.subrange(0, n - i) =~= mid);
    while j > i && is_whitespace(s.get_char(j - 1))
        invariant
            i <= j <= n,
            n == s@.len(),
            mid == s@.subrange(i as int, n as int),
            trim_end(mid) == trim_end(mid.subrange(0, j - i)),
        decreases j,
    {
        proof {
            lemma_trim_end_step(mid, (j - i) as int);
        }
        j -= 1;
    }
    assert(trim_end(mid) == mid.subrange(0, j - i)) by {
        if j > i {
            assert(mid.subrange(0, j - i).last() == s@[j - 1]);
        }
    }
    assert(mid.subrange(0, j - i) =~= s@.subrange(i as int, j as int));
    String::from_str(s.substring_char(i, j))
}

/// The whitespace-separated words of `s`.
pub fn split_words(s: &str) -> (r: Vec<String>)
    ensures
        views(r@) == words(s@),
{
    let n = s.unicode_len();
    let mut done: Vec<String> = Vec::new();
    let mut start: usize = 0;
    let mut i: usize = 0;
    while i < n
        invariant
            start <= i <= n,
            n == s@.len(),
            scan_words(s@.take(i as int)) == (views(done@), s@.subrange(start as int, i as int)),
        decreases n - i,
    {
        let c = s.get_char(i);
        let ghost pre = s@.take(i as int);
        assert(s@.take(i + 1).drop_last() =~= pre);
        assert(s@.take(i + 1).last() == c);
        if !is_whitespace(c) {
            assert(s@.subrange(start as int, i + 1) =~= s@.subrange(start as int, i as int).push(c));
        } else {
            if start < i {
                let w = String::from_str(s.substring_char(start, i));
                let ghost before = done@;
                done.push(w);
                assert(views(done@) =~= views(before).push(w@));
            }
            start = i + 1;
            assert(s@.subrange(start as int, i + 1) =~= Seq::<char>::empty());
        }
        i += 1;
    }
    assert(s@.take(n as int) =~= s@);
    if start < n {
        let w = String::from_str(s.substring_char(start, n));
        let ghost before = done@;
        done.push(w);
        assert(views(done@) =~= views(before).push(w@));
    }
    done
}

/// Reads an unsigned decimal number: an optional `+`, then digits only, with a value that fits
/// in `usize`.
pub fn parse_number(s: &str) -> (r: Option<usize>)
    ensures
        r == parse_usize(s@),
{
    let n = s.unicode_len();
    let first: usize = if n > 0 && s.get_char(0) == '+' {
        1
    } else {
        0
    };
    let ghost d = unsigned_part(s@);
    assert(d =~= s@.subrange(first as int, n as int));
    if first == n {
        return None;
    }
    let mut value: usize = 0;
    let mut k: usize = first;
    while k < n
        invariant
            first <= k <= n,
            n == s@.len(),
            d == s@.subrange(first as int, n as int),
            d == unsigned_part(s@),
            all_digits(d.take(k - first)),
            value as nat == digits_value(d.take(k - first)),
        decreases n - k,
    {
        let c = s.get_char(k);
        let ghost t = d.take(k - first + 1);
        assert(t.drop_last() =~= d.take(k - first));
        assert(t.last() == c);
        assert(d[k - first] == c);
        if !(0x30 <= (c as u32) && (c as u32) <= 0x39) {
            assert(!is_digit(d[k - first]));
            return None;
        }
        let dv = ((c as u32) - 0x30) as usize;
        assert(digits_value(t) == value * 10 + dv);
        match value.checked_mul(10) {
            None => {
                proof {
                    lemma_digits_value_prefix(d, k - first + 1);
                }
                return None;
            },
            Some(m) => match m.checked_add(dv) {
                None => {
                    proof {
                        lemma_digits_value_prefix(d, k - first + 1);
                    }
                    return None;
                },
                Some(v) => {
                    value = v;
                },
            },
        }
        assert(all_digits(t)) by {
            assert forall|j: int| 0 <= j < t.len() implies is_digit(#[trigger] t[j]) by {
                if j < t.len() - 1 {
                    assert(t[j] == d.take(k - first)[j]);
                }
            }
        }
        k += 1;
    }
    assert(d.take(n - first) =~= d);
    Some(value)
}

/// The decimal digits of `n`, most significant first, with no leading zeros.
pub open spec fn decimal(n: nat) -> Seq<char>
    decreases n,
{
    let digit = seq!['0', '1', '2', '3', '4', '5', '6', '7', '8', '9'][(n % 10) as int];
    if n < 10 {
        seq![digit]
    } else {
        decimal(n / 10).push(digit)
    }
}

/// Writes `n` in decimal.
pub fn decimal_text(n: usize) -> (r: String)
    ensures
        r@ == decimal(n as nat),
{
    let digits = "0123456789";
    proof {
        reveal_strlit("0123456789");
    }
    let mut rest: usize = n;
    let mut acc = String::new();
    while rest >= 10
        invariant
            digits@ == seq!['0', '1', '2', '3', '4', '5', '6', '7', '8', '9'],
            decimal(n as nat) == decimal(rest as nat) + acc@,
        decreases rest,
    {
        let d = rest % 10;
        let ghost dc = seq!['0', '1', '2', '3', '4', '5', '6', '7', '8', '9'][d as int];
        let digit = digits.substring_char(d, d + 1);
        assert(digit@ =~= seq![dc]);
        let ghost old_acc = acc@;
        acc = String::from_str(digit).concat(acc.as_str());
        assert(decimal(rest as nat) == decimal((rest / 10) as nat).push(dc));
        assert(decimal((rest / 10) as nat).push(dc) + old_acc =~= decimal((rest / 10) as nat) + acc@);
        rest = rest / 10;
    }
    let digit = digits.substring_char(rest, rest + 1);
    assert(digit@ =~= decimal(rest as nat));
    String::from_str(digit).concat(acc.as_str())
}

} // verus!
