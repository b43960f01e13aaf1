use vstd::prelude::*;
use crate::analysers::asset_analyser::{format_size, size_text};
use crate::analysers::dep_analyser::str_views;
use crate::analysers::dep_summary::{
    pad_left, pad_right, push_line, push_padded_left, push_padded_right, push_str_line,
};
use crate::models::apk_model::ApkFileEntry;
use crate::text::{push_str_chars, str_chars, string_from_chars};

verus! {

/// The number of bytes of `c` in UTF-8.
pub open spec fn char_utf8_len(c: char) -> nat {
    if (c as u32) < 0x80 {
        1
    } else if (c as u32) < 0x800 {
        2
    } else if (c as u32) < 0x1_0000 {
        3
    } else {
        4
    }
}

/// The number of bytes of `s` in UTF-8: what `str::len` gives.
pub open spec fn utf8_len(s: Seq<char>) -> nat
    decreases s.len(),
{
    if s.len() == 0 {
        0
    } else {
        utf8_len(s.drop_last()) + char_utf8_len(s.last())
    }
}

/// The number of characters that make up the first `b` bytes of `s`, where byte `b`
/// starts a character (or ends the text).
pub open spec fn chars_in_bytes(s: Seq<char>, b: nat) -> Option<nat>
    decreases s.len(),
{
    if b == 0 {
        Some(0)
    } else if s.len() == 0 || char_utf8_len(s[0]) > b {
        None
    } else {
        match chars_in_bytes(s.drop_first(), (b - char_utf8_len(s[0])) as nat) {
            Some(k) => Some(k + 1),
            None => None,
        }
    }
}

/// A path as the largest-files list shows it: one longer than 40 bytes keeps its first
/// and its last 18 bytes around `...`.
pub open spec fn display_path(s: Seq<char>) -> Seq<char> {
    if utf8_len(s) > 40 {
        let head = chars_in_bytes(s, 18)->0;
        let keep = chars_in_bytes(s, (utf8_len(s) - 18) as nat)->0;
        s.take(head as int) + "..."@ + s.skip(keep as int)
    } else {
        s
    }
}

/// Whether the path can be cut where `display_path` cuts it: bytes 18 and `len - 18`
/// start characters.
pub open spec fn cuts_on_char_boundaries(s: Seq<char>) -> bool {
    utf8_len(s) > 40 ==> chars_in_bytes(s, 18) is Some && chars_in_bytes(s, (utf8_len(s) - 18) as nat) is Some
}

/// The line of one file in the largest-files list.
pub open spec fn largest_file_line(f: ApkFileEntry) -> Seq<char> {
    "  "@ + pad_right(display_path(f.path@), 42) + " "@ + pad_left(size_text(f.size as nat), 8)
}

proof fn lemma_utf8_len_push(s: Seq<char>, c: char)
    ensures
        utf8_len(s.push(c)) == utf8_len(s) + char_utf8_len(c),
{
    assert(s.push(c).drop_last() =~= s);
}

proof fn lemma_utf8_len_prefix(s: Seq<char>, k: int)
    requires
        0 <= k < s.len(),
    ensures
        utf8_len(s.take(k + 1)) == utf8_len(s.take(k)) + char_utf8_len(s[k]),
{
    assert(s.take(k + 1) =~= s.take(k).push(s[k]));
    lemma_utf8_len_push(s.take(k), s[k]);
}

proof fn lemma_utf8_len_first(s: Seq<char>)
    requires
        s.len() > 0,
    ensures
        utf8_len(s) == char_utf8_len(s[0]) + utf8_len(s.drop_first()),
    decreases s.len(),
{
    if s.len() > 1 {
        lemma_utf8_len_first(s.drop_last());
        assert(s.drop_last().drop_first() =~= s.drop_first().drop_last());
        assert(s.drop_last()[0] == s[0]);
        assert(s.drop_first().last() == s.last());
        assert(utf8_len(s) == utf8_len(s.drop_last()) + char_utf8_len(s.last()));
        assert(utf8_len(s.drop_first()) == utf8_len(s.drop_first().drop_last()) + char_utf8_len(
            s.drop_first().last(),
        ));
    } else {
        assert(s.drop_first().len() == 0);
        assert(s.drop_last().len() == 0);
        assert(s.last() == s[0]);
        assert(utf8_len(s.drop_last()) == 0);
        assert(utf8_len(s.drop_first()) == 0);
    }
}

/// `chars_in_bytes(s, b)` is the `k` whose first `k` characters take exactly `b` bytes.
proof fn lemma_chars_in_bytes(s: Seq<char>, b: nat, k: int)
    requires
        0 <= k <= s.len(),
        utf8_len(s.take(k)) == b,
    ensures
        chars_in_bytes(s, b) == Some(k as nat),
    decreases k,
{
    if k > 0 {
        let t = s.drop_first();
        lemma_utf8_len_first(s.take(k));
        assert(s.take(k).drop_first() =~= t.take(k - 1));
        assert(s.take(k)[0] == s[0]);
        lemma_chars_in_bytes(t, (b - char_utf8_len(s[0])) as nat, k - 1);
    }
}

/// No `k` of `s` has first `k` characters taking exactly `b` bytes: `chars_in_bytes` is
/// `None`.
proof fn lemma_chars_in_bytes_none(s: Seq<char>, b: nat)
    requires
        forall|k: int| 0 <= k <= s.len() ==> utf8_len(#[trigger] s.take(k)) != b,
    ensures
        chars_in_bytes(s, b) is None,
    decreases s.len(),
{
    assert(s.take(0) =~= Seq::<char>::empty());
    if b > 0 && s.len() > 0 && char_utf8_len(s[0]) <= b {
        let t = s.drop_first();
        let b2 = (b - char_utf8_len(s[0])) as nat;
        assert forall|k: int| 0 <= k <= t.len() implies utf8_len(#[trigger] t.take(k)) != b2 by {
            lemma_utf8_len_first(s.take(k + 1));
            assert(s.take(k + 1).drop_first() =~= t.take(k));
            assert(s.take(k + 1)[0] == s[0]);
        }
        lemma_chars_in_bytes_none(t, b2);
    }
}

/// The byte length of each prefix of `cs`, and the character counts of the prefixes of
/// `head` and of `tail` bytes where they exist.
fn utf8_cuts(cs: &Vec<char>, head: usize, tail_from_end: usize) -> (res: (usize, Option<usize>, Option<usize>))
    requires
        cs.len() <= usize::MAX / 4,
    ensures
        res.0 == utf8_len(cs@),
        match res.1 {
            Some(h) => h <= cs.len() && chars_in_bytes(cs@, head as nat) == Some(h as nat),
            None => chars_in_bytes(cs@, head as nat) is None,
        },
        res.0 >= tail_from_end ==> match res.2 {
            Some(h) => h <= cs.len() && chars_in_bytes(cs@, (res.0 - tail_from_end) as nat) == Some(h as nat),
            None => chars_in_bytes(cs@, (res.0 - tail_from_end) as nat) is None,
        },
{
    let n = cs.len();
    let mut bytes: Vec<usize> = Vec::new();
    let mut total: usize = 0;
    let mut i: usize = 0;
    while i < n
        invariant
            n == cs.len(),
            n <= usize::MAX / 4,
            i <= n,
            bytes.len() == i,
            total == utf8_len(cs@.take(i as int)),
            total <= 4 * i,
            forall|k: int| 0 <= k < i ==> (#[trigger] bytes[k]) == utf8_len(cs@.take(k)),
        decreases n - i,
    {
        bytes.push(total);
        let c = cs[i] as u32;
        let w: usize = if c < 0x80 {
            1
        } else if c < 0x800 {
            2
        } else if c < 0x1_0000 {
            3
        } else {
            4
        };
        proof {
            lemma_utf8_len_prefix(cs@, i as int);
        }
        total = total + w;
        i = i + 1;
    }
    assert(cs@.take(n as int) =~= cs@);
    let mut head_at: Option<usize> = None;
    let mut tail_at: Option<usize> = None;
    let tail_bytes: usize = if total >= tail_from_end { total - tail_from_end } else { 0 };
    let mut k: usize = 0;
    while k <= n
        invariant
            n == cs.len(),
            n <= usize::MAX / 4,
            k <= n + 1,
            bytes.len() == n,
            total == utf8_len(cs@),
            forall|j: int| 0 <= j < n ==> (#[trigger] bytes[j]) == utf8_len(cs@.take(j)),
            head_at matches Some(h) ==> h <= n && utf8_len(cs@.take(h as int)) == head,
            head_at is None ==> forall|j: int| 0 <= j < k ==> utf8_len(#[trigger] cs@.take(j)) != head,
            tail_at matches Some(h) ==> h <= n && utf8_len(cs@.take(h as int)) == tail_bytes,
            tail_at is None ==> forall|j: int| 0 <= j < k ==> utf8_len(#[trigger] cs@.take(j)) != tail_bytes,
        decreases n + 1 - k,
    {
        let b = if k < n { bytes[k] } else { total };
        assert(b == utf8_len(cs@.take(k as int))) by {
            if k == n {
                assert(cs@.take(k as int) =~= cs@);
            }
        }
        if head_at.is_none() && b == head {
            head_at = Some(k);
        }
        if tail_at.is_none() && b == tail_bytes {
            tail_at = Some(k);
        }
        k = k + 1;
    }
    proof {
        match head_at {
            Some(h) => lemma_chars_in_bytes(cs@, head as nat, h as int),
            None => lemma_chars_in_bytes_none(cs@, head as nat),
        }
        match tail_at {
            Some(h) => lemma_chars_in_bytes(cs@, tail_bytes as nat, h as int),
            None => lemma_chars_in_bytes_none(cs@, tail_bytes as nat),
        }
    }
    (total, head_at, tail_at)
}

/// Shortens a long path for the largest-files list: a path longer than 40 bytes keeps
/// its first and its last 18 bytes around `...`.
pub fn truncate_display_path(path: &str) -> (res: String)
    requires
        path@.len() <= usize::MAX / 4,
        cuts_on_char_boundaries(path@),
    ensures
        res@ == display_path(path@),
{
    let cs = str_chars(path);
    let (total, head, tail) = utf8_cuts(&cs, 18, 18);
    if total <= 40 {
        return path.to_string();
    }
    let h = match head {
        Some(h) => h,
        None => {
            return path.to_string();
        },
    };
    let t = match tail {
        Some(t) => t,
        None => {
            return path.to_string();
        },
    };
    let mut out: Vec<char> = Vec::new();
    let mut i: usize = 0;
    while i < h
        invariant
            h <= cs.len(),
            i <= h,
            out@ == cs@.take(i as int),
        decreases h - i,
    {
        out.push(cs[i]);
        i = i + 1;
        assert(out@ =~= cs@.take(i as int));
    }
    push_str_chars(&mut out, "...");
    let ghost mid = out@;
    let mut j: usize = t;
    while j < cs.len()
        invariant
            t <= j <= cs.len(),
            out@ == mid + cs@.subrange(t as int, j as int),
        decreases cs.len() - j,
    {
        out.push(cs[j]);
        j = j + 1;
        assert(out@ =~= mid + cs@.subrange(t as int, j as int));
    }
    assert(cs@.subrange(t as int, cs.len() as int) =~= cs@.skip(t as int));
    string_from_chars(&out)
}

/// The section of the largest files: a title and one line per file, nothing where
/// there is no file.
pub open spec fn largest_files_section(files: Seq<ApkFileEntry>) -> Seq<Seq<char>> {
    if files.len() == 0 {
        seq![]
    } else {
        seq![Seq::<char>::empty(), "  Largest Files"@, "  "@ + Seq::new(40, |i: int| '─')] + Seq::new(
            files.len(),
            |k: int| largest_file_line(files[k]),
        )
    }
}

/// The lines of the largest-files section of the APK breakdown.
pub fn largest_files_lines(files: &Vec<ApkFileEntry>) -> (res: Vec<String>)
    requires
        forall|k: int|
            0 <= k < files.len() ==> (#[trigger] files[k]).path@.len() <= usize::MAX / 4 && cuts_on_char_boundaries(
                files[k].path@,
            ),
    ensures
        str_views(res@) == largest_files_section(files@),
{
    let mut out: Vec<String> = Vec::new();
    if files.len() == 0 {
        assert(str_views(out@) =~= seq![]);
        return out;
    }
    push_line(&mut out, &Vec::new());
    push_str_line(&mut out, "  Largest Files");
    let mut rule: Vec<char> = Vec::new();
    push_str_chars(&mut rule, "  ");
    let mut i: usize = 0;
    let ghost head = rule@;
    while i < 40
        invariant
            i <= 40,
            rule@ == head + Seq::new(i as nat, |k: int| '─'),
        decreases 40 - i,
    {
        rule.push('─');
        i = i + 1;
        assert(rule@ =~= head + Seq::new(i as nat, |k: int| '─'));
    }
    push_line(&mut out, &rule);
    let ghost mid = str_views(out@);
    let ghost lines = Seq::new(files@.len(), |k: int| largest_file_line(files@[k]));
    let mut k: usize = 0;
    while k < files.len()
        invariant
            forall|q: int|
                0 <= q < files.len() ==> (#[trigger] files[q]).path@.len() <= usize::MAX / 4
                    && cuts_on_char_boundaries(files[q].path@),
            lines == Seq::new(files@.len(), |q: int| largest_file_line(files@[q])),
            k <= files.len(),
            str_views(out@) == mid + lines.take(k as int),
        decreases files.len() - k,
    {
        let shown = str_chars(truncate_display_path(files[k].path.as_str()).as_str());
        let mut line: Vec<char> = Vec::new();
        push_str_chars(&mut line, "  ");
        push_padded_right(&mut line, &shown, 42);
        push_str_chars(&mut line, " ");
        push_padded_left(&mut line, &format_size(files[k].size), 8);
        assert(line@ =~= lines[k as int]);
        push_line(&mut out, &line);
        k = k + 1;
        assert(lines.take(k as int) =~= lines.take(k - 1).push(lines[k - 1]));
    }
    assert(lines.take(files.len() as int) =~= lines);
    assert(str_views(out@) =~= largest_files_section(files@));
    out
}

} // verus!
