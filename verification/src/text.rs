use vstd::prelude::*;

verus! {

/// The ASCII digit character for `d` (`d < 10`).
pub open spec fn digit_char(d: nat) -> char {
    (48 + d) as char
}

/// Decimal rendering of a natural number, most significant digit first.
pub open spec fn decimal(n: nat) -> Seq<char>
    decreases n,
{
    if n < 10 {
        seq![digit_char(n)]
    } else {
        decimal(n / 10).push(digit_char(n % 10))
    }
}

/// Appends the decimal rendering of `n` to `out`.
pub fn push_decimal(out: &mut Vec<char>, n: u128)
    ensures
        final(out)@ == old(out)@ + decimal(n as nat),
    decreases n,
{
    if n >= 10 {
        push_decimal(out, n / 10);
    }
    let d: u128 = n % 10;
    let c: char = if d == 0 { '0' } else if d == 1 { '1' } else if d == 2 { '2' } else if d == 3 { '3' }
        else if d == 4 { '4' } else if d == 5 { '5' } else if d == 6 { '6' } else if d == 7 { '7' }
        else if d == 8 { '8' } else { '9' };
    out.push(c);
}

/// The characters of a string slice, in order.
pub fn str_chars(s: &str) -> (res: Vec<char>)
    ensures
        res@ == s@,
{
    let mut res: Vec<char> = Vec::new();
    for c in it: s.chars()
        invariant
            res@ == it.seq().take(it.index() as int),
            it.seq() == s@,
    {
        res.push(c);
    }
    res
}


/// Unicode `White_Space`: the characters for which `char::is_whitespace` holds.
pub open spec fn is_whitespace(c: char) -> bool {
    let u = c as u32;
    ||| 0x09 <= u <= 0x0d
    ||| u == 0x20
    ||| u == 0x85
    ||| u == 0xa0
    ||| u == 0x1680
    ||| 0x2000 <= u <= 0x200a
    ||| u == 0x2028
    ||| u == 0x2029
    ||| u == 0x202f
    ||| u == 0x205f
    ||| u == 0x3000
}

/// Whether `c` is Unicode whitespace, as `char::is_whitespace` decides.
pub fn is_whitespace_char(c: char) -> (res: bool)
    ensures
        res == is_whitespace(c),
{
    let u = c as u32;
    (0x09 <= u && u <= 0x0d) || u == 0x20 || u == 0x85 || u == 0xa0 || u == 0x1680 || (0x2000 <= u
        && u <= 0x200a) || u == 0x2028 || u == 0x2029 || u == 0x202f || u == 0x205f || u == 0x3000
}

/// `s` without its leading whitespace.
pub open spec fn trim_start(s: Seq<char>) -> Seq<char>
    decreases s.len(),
{
    if s.len() > 0 && is_whitespace(s[0]) {
        trim_start(s.drop_first())
    } else {
        s
    }
}

/// `s` without its trailing whitespace.
pub open spec fn trim_end(s: Seq<char>) -> Seq<char>
    decreases s.len(),
{
    if s.len() > 0 && is_whitespace(s.last()) {
        trim_end(s.drop_last())
    } else {
        s
    }
}

/// `s` without leading and trailing whitespace, as `str::trim` gives it.
pub open spec fn trim(s: Seq<char>) -> Seq<char> {
    trim_end(trim_start(s))
}

proof fn lemma_trim_start_skip(s: Seq<char>, i: int)
    requires
        0 <= i <= s.len(),
        forall|k: int| 0 <= k < i ==> is_whitespace(#[trigger] s[k]),
    ensures
        trim_start(s) == trim_start(s.subrange(i, s.len() as int)),
    decreases i,
{
    if i > 0 {
        assert(s.drop_first().subrange(i - 1, s.drop_first().len() as int) =~= s.subrange(
            i,
            s.len() as int,
        ));
        lemma_trim_start_skip(s.drop_first(), i - 1);
    } else {
        assert(s.subrange(0, s.len() as int) =~= s);
    }
}

proof fn lemma_trim_end_skip(s: Seq<char>, j: int)
    requires
        0 <= j <= s.len(),
        forall|k: int| j <= k < s.len() ==> is_whitespace(#[trigger] s[k]),
    ensures
        trim_end(s) == trim_end(s.subrange(0, j)),
    decreases s.len() - j,
{
    if j < s.len() {
        assert(s.drop_last().subrange(0, j) =~= s.subrange(0, j));
        lemma_trim_end_skip(s.drop_last(), j);
    } else {
        assert(s.subrange(0, j) =~= s);
    }
}

/// The characters of `s` between the first and the last non-whitespace character.
pub fn trim_chars(s: &Vec<char>) -> (res: Vec<char>)
    ensures
        res@ == trim(s@),
{
    let n = s.len();
    let mut i: usize = 0;
    while i < n && is_whitespace_char(s[i])
        invariant
            n == s.len(),
            i <= n,
            forall|k: int| 0 <= k < i ==> is_whitespace(#[trigger] s@[k]),
        decreases n - i,
    {
        i = i + 1;
    }
    proof {
        lemma_trim_start_skip(s@, i as int);
    }
    let ghost mid = s@.subrange(i as int, n as int);
    assert(i == n || !is_whitespace(mid[0]));
    assert(trim_start(s@) == mid);
    let mut j: usize = n;
    while j > i && is_whitespace_char(s[j - 1])
        invariant
            n == s.len(),
            i <= j <= n,
            mid == s@.subrange(i as int, n as int),
            forall|k: int| j <= k < n ==> is_whitespace(#[trigger] s@[k]),
        decreases j,
    {
        j = j - 1;
    }
    proof {
        assert forall|k: int| j - i <= k < mid.len() implies is_whitespace(#[trigger] mid[k]) by {
            assert(mid[k] == s@[k + i]);
        }
        lemma_trim_end_skip(mid, j - i);
        assert(mid.subrange(0, j - i) =~= s@.subrange(i as int, j as int));
    }
    let mut res: Vec<char> = Vec::new();
    let mut k: usize = i;
    while k < j
        invariant
            i <= k <= j <= n,
            n == s.len(),
            res@ == s@.subrange(i as int, k as int),
        decreases j - k,
    {
        res.push(s[k]);
        k = k + 1;
        assert(res@ =~= s@.subrange(i as int, k as int));
    }
    res
}


/// `line` without one trailing carriage return.
pub open spec fn strip_cr(line: Seq<char>) -> Seq<char> {
    if line.len() > 0 && line.last() == '\r' {
        line.drop_last()
    } else {
        line
    }
}

/// The finished lines of `s` and the unfinished tail after the last newline.
pub open spec fn lines_acc(s: Seq<char>) -> (Seq<Seq<char>>, Seq<char>)
    decreases s.len(),
{
    if s.len() == 0 {
        (seq![], seq![])
    } else {
        let (done, cur) = lines_acc(s.drop_last());
        if s.last() == '\n' {
            (done.push(strip_cr(cur)), seq![])
        } else {
            (done, cur.push(s.last()))
        }
    }
}

/// The lines of `s` as `str::lines` yields them: split at `\n`, a `\r` right before
/// a `\n` dropped, and no empty line after a final newline.
pub open spec fn lines(s: Seq<char>) -> Seq<Seq<char>> {
    let (done, cur) = lines_acc(s);
    if cur.len() > 0 {
        done.push(cur)
    } else {
        done
    }
}

/// The lines of `s`, as `lines` specifies them.
pub fn lines_of(s: &Vec<char>) -> (res: Vec<Vec<char>>)
    ensures
        res.len() == lines(s@).len(),
        forall|k: int| 0 <= k < res.len() ==> (#[trigger] res[k])@ == lines(s@)[k],
{
    let n = s.len();
    let mut done: Vec<Vec<char>> = Vec::new();
    let mut cur: Vec<char> = Vec::new();
    let mut i: usize = 0;
    while i < n
        invariant
            n == s.len(),
            i <= n,
            done.len() == lines_acc(s@.take(i as int)).0.len(),
            forall|k: int| 0 <= k < done.len() ==> (#[trigger] done[k])@ == lines_acc(s@.take(i as int)).0[k],
            cur@ == lines_acc(s@.take(i as int)).1,
        decreases n - i,
    {
        assert(s@.take(i + 1).drop_last() =~= s@.take(i as int));
        let c = s[i];
        if c == '\n' {
            let ghost before = cur@;
            if cur.len() > 0 && cur[cur.len() - 1] == '\r' {
                cur.pop();
            }
            assert(cur@ == strip_cr(before));
            done.push(cur);
            cur = Vec::new();
        } else {
            cur.push(c);
        }
        i = i + 1;
    }
    assert(s@.take(n as int) =~= s@);
    if cur.len() > 0 {
        done.push(cur);
    }
    done
}

/// Whether `needle` occurs in `hay` starting at position `i`.
pub open spec fn occurs_at(hay: Seq<char>, needle: Seq<char>, i: int) -> bool {
    0 <= i && i + needle.len() <= hay.len() && hay.subrange(i, i + needle.len()) == needle
}

/// Whether `needle` occurs in `hay`, as `str::contains` decides for a string pattern.
pub open spec fn contains(hay: Seq<char>, needle: Seq<char>) -> bool {
    exists|i: int| occurs_at(hay, needle, i)
}

/// Whether `needle` occurs in `hay`.
pub fn contains_chars(hay: &Vec<char>, needle: &Vec<char>) -> (res: bool)
    ensures
        res == contains(hay@, needle@),
{
    let n = hay.len();
    let m = needle.len();
    if m > n {
        assert forall|i: int| !occurs_at(hay@, needle@, i) by {}
        return false;
    }
    let mut i: usize = 0;
    while i <= n - m
        invariant
            n == hay.len(),
            m == needle.len(),
            m <= n,
            i <= n - m + 1,
            forall|t: int| 0 <= t < i ==> !occurs_at(hay@, needle@, t),
        decreases n - i,
    {
        let mut j: usize = 0;
        while j < m && hay[i + j] == needle[j]
            invariant
                n == hay.len(),
                m == needle.len(),
                i + m <= n,
                j <= m,
                forall|t: int| 0 <= t < j ==> hay@[i + t] == needle@[t],
            decreases m - j,
        {
            j = j + 1;
        }
        if j == m {
            assert(hay@.subrange(i as int, i + m) =~= needle@);
            assert(occurs_at(hay@, needle@, i as int));
            return true;
        }
        assert(hay@.subrange(i as int, i + m)[j as int] != needle@[j as int]);
        i = i + 1;
    }
    assert forall|t: int| !occurs_at(hay@, needle@, t) by {
        if 0 <= t && t + m <= n {
            assert(t < i);
        }
    }
    false
}


/// The finished words of `s` and the unfinished word at its end.
pub open spec fn words_acc(s: Seq<char>) -> (Seq<Seq<char>>, Seq<char>)
    decreases s.len(),
{
    if s.len() == 0 {
        (seq![], seq![])
    } else {
        let (done, cur) = words_acc(s.drop_last());
        if is_whitespace(s.last()) {
            if cur.len() > 0 {
                (done.push(cur), seq![])
            } else {
                (done, seq![])
            }
        } else {
            (done, cur.push(s.last()))
        }
    }
}

/// The maximal runs of non-whitespace characters of `s`, as
/// `str::split_whitespace` yields them.
pub open spec fn words(s: Seq<char>) -> Seq<Seq<char>> {
    let (done, cur) = words_acc(s);
    if cur.len() > 0 {
        done.push(cur)
    } else {
        done
    }
}

/// The words of `s`, as `words` specifies them.
pub fn words_of(s: &Vec<char>) -> (res: Vec<Vec<char>>)
    ensures
        res.len() == words(s@).len(),
        forall|k: int| 0 <= k < res.len() ==> (#[trigger] res[k])@ == words(s@)[k],
{
    let n = s.len();
    let mut done: Vec<Vec<char>> = Vec::new();
    let mut cur: Vec<char> = Vec::new();
    let mut i: usize = 0;
    while i < n
        invariant
            n == s.len(),
            i <= n,
            done.len() == words_acc(s@.take(i as int)).0.len(),
            forall|k: int| 0 <= k < done.len() ==> (#[trigger] done[k])@ == words_acc(s@.take(i as int)).0[k],
            cur@ == words_acc(s@.take(i as int)).1,
        decreases n - i,
    {
        assert(s@.take(i + 1).drop_last() =~= s@.take(i as int));
        let c = s[i];
        if is_whitespace_char(c) {
            if cur.len() > 0 {
                done.push(cur);
            }
            cur = Vec::new();
        } else {
            cur.push(c);
        }
        i = i + 1;
    }
    assert(s@.take(n as int) =~= s@);
    if cur.len() > 0 {
        done.push(cur);
    }
    done
}

/// Whether `c` is one of the ASCII digits `0`..`9`.
pub open spec fn is_digit(c: char) -> bool {
    '0' <= c && c <= '9'
}

/// The value of the decimal digits `s`.
pub open spec fn digits_value(s: Seq<char>) -> nat
    decreases s.len(),
{
    if s.len() == 0 {
        0
    } else {
        digits_value(s.drop_last()) * 10 + (s.last() as nat - 48) as nat
    }
}

/// The digits of an unsigned number: the text without one leading `+`.
pub open spec fn unsigned_digits(s: Seq<char>) -> Seq<char> {
    if s.len() > 0 && s[0] == '+' {
        s.drop_first()
    } else {
        s
    }
}

/// The value `u128::from_str` gives `s`: an optional `+` and at least one decimal
/// digit, with no other character, of a value that fits in 128 bits.
pub open spec fn parse_u128(s: Seq<char>) -> Option<u128> {
    let d = unsigned_digits(s);
    if d.len() > 0 && (forall|i: int| 0 <= i < d.len() ==> is_digit(#[trigger] d[i]))
        && digits_value(d) <= u128::MAX {
        Some(digits_value(d) as u128)
    } else {
        None
    }
}

proof fn lemma_digits_value_grows(s: Seq<char>, i: int, j: int)
    requires
        0 <= i <= j <= s.len(),
        forall|k: int| 0 <= k < s.len() ==> is_digit(#[trigger] s[k]),
    ensures
        digits_value(s.take(i)) <= digits_value(s.take(j)),
    decreases j - i,
{
    if i < j {
        lemma_digits_value_grows(s, i, j - 1);
        assert(s.take(j).drop_last() =~= s.take(j - 1));
    }
}

/// `s` read as an unsigned 128-bit number, as `u128::from_str` reads it.
pub fn parse_u128_chars(s: &Vec<char>) -> (res: Option<u128>)
    ensures
        res == parse_u128(s@),
{
    let n = s.len();
    let start: usize = if n > 0 && s[0] == '+' { 1 } else { 0 };
    let ghost d = unsigned_digits(s@);
    assert(d =~= s@.subrange(start as int, n as int));
    if start == n {
        return None;
    }
    let mut k: usize = start;
    while k < n
        invariant
            start <= k <= n,
            n == s.len(),
            d == s@.subrange(start as int, n as int),
            d == unsigned_digits(s@),
            forall|t: int| 0 <= t < k - start ==> is_digit(#[trigger] d[t]),
        decreases n - k,
    {
        if !('0' <= s[k] && s[k] <= '9') {
            assert(!is_digit(d[k - start]));
            assert(!(forall|t: int| 0 <= t < d.len() ==> is_digit(#[trigger] d[t])));
            return None;
        }
        k = k + 1;
    }
    let mut value: u128 = 0;
    let mut i: usize = start;
    while i < n
        invariant
            start <= i <= n,
            n == s.len(),
            d == s@.subrange(start as int, n as int),
            d == unsigned_digits(s@),
            forall|t: int| 0 <= t < d.len() ==> is_digit(#[trigger] d[t]),
            value == digits_value(d.take(i - start)),
        decreases n - i,
    {
        assert(d.take(i - start + 1).drop_last() =~= d.take(i - start));
        assert(d.take(i - start + 1).last() == s@[i as int]);
        let digit: u128 = (s[i] as u32 - 48) as u128;
        assert(digits_value(d.take(i - start + 1)) == value * 10 + digit);
        let next = value.checked_mul(10);
        match next {
            None => {
                proof {
                    lemma_digits_value_grows(d, i - start + 1, d.len() as int);
                    assert(d.take(d.len() as int) =~= d);
                    assert(digits_value(d) > u128::MAX);
                }
                return None;
            },
            Some(v) => {
                let total = v.checked_add(digit);
                match total {
                    None => {
                        proof {
                            lemma_digits_value_grows(d, i - start + 1, d.len() as int);
                            assert(d.take(d.len() as int) =~= d);
                            assert(digits_value(d) > u128::MAX);
                        }
                        return None;
                    },
                    Some(t) => {
                        value = t;
                    },
                }
            },
        }
        i = i + 1;
    }
    assert(d.take(n - start) =~= d);
    Some(value)
}


/// The position of the first `c` in `s`.
pub open spec fn first_index_of(s: Seq<char>, c: char) -> Option<int>
    decreases s.len(),
{
    if s.len() == 0 {
        None
    } else if s[0] == c {
        Some(0)
    } else {
        match first_index_of(s.drop_first(), c) {
            Some(i) => Some(i + 1),
            None => None,
        }
    }
}

pub proof fn lemma_first_index_of(s: Seq<char>, c: char, i: int)
    requires
        0 <= i <= s.len(),
        forall|k: int| 0 <= k < i ==> s[k] != c,
    ensures
        i < s.len() && s[i] == c ==> first_index_of(s, c) == Some(i),
        i == s.len() ==> first_index_of(s, c) is None,
    decreases i,
{
    if i > 0 {
        lemma_first_index_of(s.drop_first(), c, i - 1);
    }
}

/// The position of the first `c` in `s`, if there is one.
pub fn find_char(s: &Vec<char>, c: char) -> (res: Option<usize>)
    ensures
        res matches Some(i) ==> first_index_of(s@, c) == Some(i as int) && i < s.len() && s@[i as int]
            == c && forall|k: int| 0 <= k < i ==> s@[k] != c,
        res is None ==> first_index_of(s@, c) is None,
{
    let mut i: usize = 0;
    while i < s.len()
        invariant
            i <= s.len(),
            forall|k: int| 0 <= k < i ==> s@[k] != c,
        decreases s.len() - i,
    {
        if s[i] == c {
            proof {
                lemma_first_index_of(s@, c, i as int);
            }
            return Some(i);
        }
        i = i + 1;
    }
    proof {
        lemma_first_index_of(s@, c, i as int);
    }
    None
}

/// Whether `a` and `b` hold the same characters.
pub fn chars_eq(a: &Vec<char>, b: &Vec<char>) -> (res: bool)
    ensures
        res == (a@ == b@),
{
    if a.len() != b.len() {
        return false;
    }
    let mut i: usize = 0;
    while i < a.len()
        invariant
            a.len() == b.len(),
            i <= a.len(),
            forall|k: int| 0 <= k < i ==> a@[k] == b@[k],
        decreases a.len() - i,
    {
        if a[i] != b[i] {
            return false;
        }
        i = i + 1;
    }
    assert(a@ =~= b@);
    true
}

/// The characters of `s` from position `from` up to, not including, `to`.
pub fn sub_chars(s: &Vec<char>, from: usize, to: usize) -> (res: Vec<char>)
    requires
        from <= to <= s.len(),
    ensures
        res@ == s@.subrange(from as int, to as int),
{
    let mut res: Vec<char> = Vec::new();
    let mut k: usize = from;
    while k < to
        invariant
            from <= k <= to <= s.len(),
            res@ == s@.subrange(from as int, k as int),
        decreases to - k,
    {
        res.push(s[k]);
        k = k + 1;
        assert(res@ =~= s@.subrange(from as int, k as int));
    }
    res
}

/// Builds a `String` from characters: `String`'s `FromIterator<&char>` (std), which
/// yields exactly the given characters in order.
#[verifier::external_body]
pub(crate) fn string_from_chars(cs: &Vec<char>) -> (res: String)
    ensures
        res@ == cs@,
{
    cs.iter().collect()
}

/// The lowercase form of a string, as `str::to_lowercase` (std) gives it under the
/// Unicode `Lowercase` mapping; its tables are not restated here.
pub uninterp spec fn lowercase(s: Seq<char>) -> Seq<char>;

/// Whether every character of `s` is ASCII.
pub open spec fn is_ascii_text(s: Seq<char>) -> bool {
    forall|i: int| 0 <= i < s.len() ==> (#[trigger] s[i] as u32) < 0x80
}

/// `c` with an ASCII uppercase letter turned lowercase.
pub open spec fn ascii_lower_char(c: char) -> char {
    if 'A' <= c <= 'Z' {
        ((c as u32) + 32) as char
    } else {
        c
    }
}

/// `c` with an ASCII lowercase letter turned uppercase.
pub open spec fn ascii_upper_char(c: char) -> char {
    if 'a' <= c <= 'z' {
        ((c as u32) - 32) as char
    } else {
        c
    }
}

/// `s` with its ASCII uppercase letters turned lowercase, as `str::to_ascii_lowercase`.
pub open spec fn ascii_lower(s: Seq<char>) -> Seq<char> {
    s.map_values(|c: char| ascii_lower_char(c))
}

/// `s` with its ASCII lowercase letters turned uppercase, as `str::to_ascii_uppercase`.
pub open spec fn ascii_upper(s: Seq<char>) -> Seq<char> {
    s.map_values(|c: char| ascii_upper_char(c))
}

/// `str::to_lowercase` (std). The result depends on the text alone and is named
/// `lowercase`. Of an ASCII text the contract also states what std documents for
/// ASCII: its uppercase letters become lowercase and every other character stays.
/// Nothing is claimed of the Unicode mapping beyond ASCII.
#[verifier::external_body]
pub(crate) fn to_lowercase(s: &str) -> (res: String)
    ensures
        res@ == lowercase(s@),
        is_ascii_text(s@) ==> res@ == ascii_lower(s@),
{
    s.to_lowercase()
}

/// Appends the characters of a string slice.
pub fn push_str_chars(out: &mut Vec<char>, s: &str)
    ensures
        final(out)@ == old(out)@ + s@,
{
    let cs = str_chars(s);
    let mut i: usize = 0;
    let ghost start = out@;
    while i < cs.len()
        invariant
            i <= cs.len(),
            out@ == start + cs@.take(i as int),
        decreases cs.len() - i,
    {
        out.push(cs[i]);
        i = i + 1;
        assert(out@ =~= start + cs@.take(i as int));
    }
    assert(cs@.take(cs.len() as int) =~= cs@);
}

/// Whether `s` begins with `p`.
pub open spec fn starts_with(s: Seq<char>, p: Seq<char>) -> bool {
    p.len() <= s.len() && s.take(p.len() as int) == p
}

/// Whether `s` ends with `p`.
pub open spec fn ends_with(s: Seq<char>, p: Seq<char>) -> bool {
    p.len() <= s.len() && s.skip(s.len() - p.len()) == p
}

/// Whether `s` begins with the characters of `p`.
pub fn starts_with_chars(s: &Vec<char>, p: &str) -> (res: bool)
    ensures
        res == starts_with(s@, p@),
{
    let pc = str_chars(p);
    if pc.len() > s.len() {
        return false;
    }
    let mut i: usize = 0;
    while i < pc.len()
        invariant
            pc@ == p@,
            pc.len() <= s.len(),
            i <= pc.len(),
            forall|k: int| 0 <= k < i ==> s@[k] == pc@[k],
        decreases pc.len() - i,
    {
        if s[i] != pc[i] {
            assert(s@.take(pc.len() as int)[i as int] != pc@[i as int]);
            return false;
        }
        i = i + 1;
    }
    assert(s@.take(pc.len() as int) =~= pc@);
    true
}

/// Whether `s` ends with the characters of `p`.
pub fn ends_with_chars(s: &Vec<char>, p: &str) -> (res: bool)
    ensures
        res == ends_with(s@, p@),
{
    let pc = str_chars(p);
    if pc.len() > s.len() {
        return false;
    }
    let off = s.len() - pc.len();
    let mut i: usize = 0;
    while i < pc.len()
        invariant
            pc@ == p@,
            pc.len() <= s.len(),
            off == s.len() - pc.len(),
            i <= pc.len(),
            forall|k: int| 0 <= k < i ==> s@[off + k] == pc@[k],
        decreases pc.len() - i,
    {
        if s[off + i] != pc[i] {
            assert(s@.skip(off as int)[i as int] != pc@[i as int]);
            return false;
        }
        i = i + 1;
    }
    assert(s@.skip(off as int) =~= pc@);
    true
}

/// Splitting `s`, a newline and `t` into lines gives the lines of `s` (its unfinished
/// last line closed, a final `\r` dropped) followed by those of `t`.
pub proof fn lemma_lines_acc_join(s: Seq<char>, t: Seq<char>)
    ensures
        lines_acc(s + seq!['\n'] + t).0 == lines_acc(s).0.push(strip_cr(lines_acc(s).1)) + lines_acc(t).0,
        lines_acc(s + seq!['\n'] + t).1 == lines_acc(t).1,
    decreases t.len(),
{
    let u = s + seq!['\n'] + t;
    let d = lines_acc(s).0.push(strip_cr(lines_acc(s).1));
    if t.len() == 0 {
        assert(u.drop_last() =~= s);
        assert(u.last() == '\n');
        assert(d + lines_acc(t).0 =~= d);
    } else {
        let t0 = t.drop_last();
        lemma_lines_acc_join(s, t0);
        assert(u.drop_last() =~= s + seq!['\n'] + t0);
        assert(u.last() == t.last());
        let (a, c) = lines_acc(t0);
        if t.last() == '\n' {
            assert((d + a).push(strip_cr(c)) =~= d + a.push(strip_cr(c)));
        }
    }
}

proof fn lemma_trim_end_push_space(x: Seq<char>, w: char)
    requires
        is_whitespace(w),
    ensures
        trim_end(x.push(w)) == trim_end(x),
{
    assert(x.push(w).drop_last() =~= x);
}

proof fn lemma_trim_start_push_space(x: Seq<char>, w: char)
    requires
        is_whitespace(w),
    ensures
        trim_start(x.push(w)) == if trim_start(x).len() == 0 {
            Seq::<char>::empty()
        } else {
            trim_start(x).push(w)
        },
    decreases x.len(),
{
    if x.len() == 0 {
        assert(x.push(w).drop_first() =~= Seq::<char>::empty());
        assert(x.push(w)[0] == w);
        assert(trim_start(Seq::<char>::empty()) == Seq::<char>::empty());
        assert(trim_start(x.push(w)) == trim_start(x.push(w).drop_first()));
    } else if is_whitespace(x[0]) {
        assert(x.push(w).drop_first() =~= x.drop_first().push(w));
        assert(x.push(w)[0] == x[0]);
        lemma_trim_start_push_space(x.drop_first(), w);
    } else {
        assert(x.push(w)[0] == x[0]);
    }
}

/// A carriage return at the end of a line makes no difference once the line is trimmed.
pub proof fn lemma_trim_strip_cr(line: Seq<char>)
    ensures
        trim(strip_cr(line)) == trim(line),
{
    if line.len() > 0 && line.last() == '\r' {
        let x = line.drop_last();
        assert(line =~= x.push('\r'));
        lemma_trim_start_push_space(x, '\r');
        if trim_start(x).len() > 0 {
            lemma_trim_end_push_space(trim_start(x), '\r');
        }
    }
}

/// `needle` occurs in `a + needle + b`, wherever in the text it stands.
pub proof fn law_contains_finds_any_occurrence(a: Seq<char>, needle: Seq<char>, b: Seq<char>)
    ensures
        contains(a + needle + b, needle),
{
    let hay = a + needle + b;
    assert(hay.subrange(a.len() as int, (a.len() + needle.len()) as int) =~= needle);
    assert(occurs_at(hay, needle, a.len() as int));
}

/// `needle` is contained in `hay` exactly when some stretch of `hay` equals it.
pub proof fn law_contains_is_substring(hay: Seq<char>, needle: Seq<char>)
    ensures
        contains(hay, needle) <==> exists|i: int|
            0 <= i && i + needle.len() <= hay.len() && #[trigger] hay.subrange(i, i + needle.len()) == needle,
{
    if contains(hay, needle) {
        let i = choose|i: int| occurs_at(hay, needle, i);
        assert(hay.subrange(i, i + needle.len()) == needle);
    }
    if exists|i: int| 0 <= i && i + needle.len() <= hay.len() && #[trigger] hay.subrange(i, i + needle.len()) == needle {
        let i = choose|i: int| 0 <= i && i + needle.len() <= hay.len() && #[trigger] hay.subrange(i, i + needle.len()) == needle;
        assert(occurs_at(hay, needle, i));
    }
}

} // verus!
