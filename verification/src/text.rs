//! Text as sequences of characters: white space, trimming, lines and joining.

use vstd::prelude::*;
use vstd::string::*;

verus! {

broadcast use vstd::string::group_string_axioms;

/// Whether `c` has the Unicode property `White_Space`.
pub open spec fn is_whitespace(c: char) -> bool {
    let n = c as u32;
    ||| 0x09 <= n <= 0x0D
    ||| n == 0x20
    ||| n == 0x85
    ||| n == 0xA0
    ||| n == 0x1680
    ||| 0x2000 <= n <= 0x200A
    ||| n == 0x2028
    ||| n == 0x2029
    ||| n == 0x202F
    ||| n == 0x205F
    ||| n == 0x3000
}

/// Whether every character of `s` is white space. The empty text is blank.
pub open spec fn is_blank(s: Seq<char>) -> bool {
    forall|i: int| 0 <= i < s.len() ==> is_whitespace(#[trigger] s[i])
}

/// `s` without its leading white space.
pub open spec fn trim_start(s: Seq<char>) -> Seq<char>
    decreases s.len(),
{
    if s.len() > 0 && is_whitespace(s.first()) {
        trim_start(s.drop_first())
    } else {
        s
    }
}

/// `s` without its trailing white space.
pub open spec fn trim_end(s: Seq<char>) -> Seq<char>
    decreases s.len(),
{
    if s.len() > 0 && is_whitespace(s.last()) {
        trim_end(s.drop_last())
    } else {
        s
    }
}

/// `s` without its leading and trailing white space.
pub open spec fn trim(s: Seq<char>) -> Seq<char> {
    trim_end(trim_start(s))
}

/// The position of the first line feed in `s`, or the length of `s` if it has none.
pub open spec fn first_newline(s: Seq<char>) -> int
    decreases s.len(),
{
    if s.len() == 0 || s.first() == '\n' {
        0
    } else {
        1 + first_newline(s.drop_first())
    }
}

/// `line` without one trailing carriage return, if it has one.
pub open spec fn strip_carriage_return(line: Seq<char>) -> Seq<char> {
    if line.len() > 0 && line.last() == '\r' {
        line.drop_last()
    } else {
        line
    }
}

/// The lines of `s`. A line ends at a line feed, or at a carriage return
/// directly followed by one; the terminator is not part of the line. What
/// follows the last line feed is a line of its own unless it is empty.
pub open spec fn lines(s: Seq<char>) -> Seq<Seq<char>>
    decreases s.len(),
{
    let k = first_newline(s);
    if s.len() == 0 {
        Seq::empty()
    } else if 0 <= k < s.len() {
        seq![strip_carriage_return(s.take(k))] + lines(s.skip(k + 1))
    } else {
        seq![s]
    }
}

/// The texts of `parts` in order, with `separator` between each two neighbours.
pub open spec fn join(parts: Seq<Seq<char>>, separator: Seq<char>) -> Seq<char>
    decreases parts.len(),
{
    if parts.len() == 0 {
        Seq::empty()
    } else if parts.len() == 1 {
        parts[0]
    } else {
        join(parts.drop_last(), separator) + separator + parts.last()
    }
}

/// Leading white space ends at `k`: trimming the start leaves what follows.
pub proof fn lemma_trim_start_at(s: Seq<char>, k: int)
    requires
        0 <= k <= s.len(),
        forall|i: int| 0 <= i < k ==> is_whitespace(#[trigger] s[i]),
        k < s.len() ==> !is_whitespace(s[k]),
    ensures
        trim_start(s) == s.skip(k),
    decreases k,
{
    if k == 0 {
        assert(s.skip(0) =~= s);
    } else {
        let rest = s.drop_first();
        assert forall|i: int| 0 <= i < k - 1 implies is_whitespace(#[trigger] rest[i]) by {
            assert(rest[i] == s[i + 1]);
        }
        lemma_trim_start_at(rest, k - 1);
        assert(rest.skip(k - 1) =~= s.skip(k));
    }
}

/// Trailing white space begins at `k`: trimming the end leaves what precedes.
pub proof fn lemma_trim_end_at(s: Seq<char>, k: int)
    requires
        0 <= k <= s.len(),
        forall|i: int| k <= i < s.len() ==> is_whitespace(#[trigger] s[i]),
        k > 0 ==> !is_whitespace(s[k - 1]),
    ensures
        trim_end(s) == s.take(k),
    decreases s.len() - k,
{
    if k == s.len() {
        assert(s.take(k) =~= s);
    } else {
        let rest = s.drop_last();
        lemma_trim_end_at(rest, k);
        assert(rest.take(k) =~= s.take(k));
    }
}

/// A text is blank exactly when trimming its start, or both ends, leaves nothing.
pub proof fn lemma_blank_trims_to_empty(s: Seq<char>)
    ensures
        is_blank(s) <==> trim_start(s).len() == 0,
        is_blank(s) <==> trim(s).len() == 0,
    decreases s.len(),
{
    if s.len() > 0 && is_whitespace(s.first()) {
        let rest = s.drop_first();
        lemma_blank_trims_to_empty(rest);
        if is_blank(s) {
            assert forall|i: int| 0 <= i < rest.len() implies is_whitespace(#[trigger] rest[i]) by {
                assert(rest[i] == s[i + 1]);
            }
        }
        if is_blank(rest) {
            assert forall|i: int| 0 <= i < s.len() implies is_whitespace(#[trigger] s[i]) by {
                if i > 0 {
                    assert(s[i] == rest[i - 1]);
                }
            }
        }
    } else if s.len() > 0 {
        assert(!is_whitespace(s[0]));
        lemma_trim_end_keeps_first(s);
    }
}

/// Trimming the end never removes a first character that is not white space.
pub proof fn lemma_trim_end_keeps_first(s: Seq<char>)
    requires
        s.len() > 0,
        !is_whitespace(s.first()),
    ensures
        trim_end(s).len() > 0,
        trim_end(s).first() == s.first(),
    decreases s.len(),
{
    if is_whitespace(s.last()) {
        assert(s.len() > 1);
        assert(s.drop_last().first() == s.first());
        lemma_trim_end_keeps_first(s.drop_last());
    }
}

/// What trimming the start leaves is a tail of the text that does not begin
/// with white space.
pub proof fn lemma_trim_start_is_tail(s: Seq<char>)
    ensures
        trim_start(s).len() <= s.len(),
        trim_start(s) == s.skip(s.len() - trim_start(s).len()),
        trim_start(s).len() > 0 ==> !is_whitespace(trim_start(s).first()),
    decreases s.len(),
{
    if s.len() > 0 && is_whitespace(s.first()) {
        let rest = s.drop_first();
        lemma_trim_start_is_tail(rest);
        assert(rest.skip(rest.len() - trim_start(rest).len()) =~= s.skip(
            s.len() - trim_start(s).len(),
        ));
    } else {
        assert(s.skip(0) =~= s);
    }
}

/// What trimming the end leaves is a head of the text that does not end with
/// white space.
pub proof fn lemma_trim_end_is_head(s: Seq<char>)
    ensures
        trim_end(s).len() <= s.len(),
        trim_end(s) == s.take(trim_end(s).len() as int),
        trim_end(s).len() > 0 ==> !is_whitespace(trim_end(s).last()),
    decreases s.len(),
{
    if s.len() > 0 && is_whitespace(s.last()) {
        let rest = s.drop_last();
        lemma_trim_end_is_head(rest);
        assert(rest.take(trim_end(rest).len() as int) =~= s.take(trim_end(s).len() as int));
    } else {
        assert(s.take(s.len() as int) =~= s);
    }
}

/// A trimmed text neither begins nor ends with white space, and trimming it
/// again changes nothing.
pub proof fn lemma_trim_is_trimmed(s: Seq<char>)
    ensures
        trim(s).len() > 0 ==> !is_whitespace(trim(s).first()) && !is_whitespace(trim(s).last()),
        trim(trim(s)) == trim(s),
{
    let inner = trim_start(s);
    lemma_trim_start_is_tail(s);
    lemma_trim_end_is_head(inner);
    let t = trim(s);
    if t.len() > 0 {
        assert(t.first() == inner.first());
        assert(trim_start(t) == t);
        assert(trim_end(t) == t);
    } else {
        assert(trim_start(t) == t);
        assert(trim_end(t) == t);
    }
}

/// Leading white space does not survive trimming, whatever follows it.
pub proof fn lemma_trim_drops_blank_prefix(blank: Seq<char>, text: Seq<char>)
    requires
        is_blank(blank),
    ensures
        trim_start(blank + text) == trim_start(text),
        trim(blank + text) == trim(text),
    decreases blank.len(),
{
    if blank.len() == 0 {
        assert(blank + text =~= text);
    } else {
        let rest = blank.drop_first();
        assert(is_blank(rest)) by {
            assert forall|i: int| 0 <= i < rest.len() implies is_whitespace(
                #[trigger] rest[i],
            ) by {
                assert(rest[i] == blank[i + 1]);
            }
        }
        assert((blank + text).first() == blank[0]);
        assert((blank + text).drop_first() =~= rest + text);
        lemma_trim_drops_blank_prefix(rest, text);
    }
}

/// No line feed stands before `k`, and one stands at `k` unless the text ends there.
pub proof fn lemma_first_newline_at(s: Seq<char>, k: int)
    requires
        0 <= k <= s.len(),
        forall|i: int| 0 <= i < k ==> #[trigger] s[i] != '\n',
        k < s.len() ==> s[k] == '\n',
    ensures
        first_newline(s) == k,
    decreases k,
{
    if k > 0 {
        let rest = s.drop_first();
        assert forall|i: int| 0 <= i < k - 1 implies #[trigger] rest[i] != '\n' by {
            assert(rest[i] == s[i + 1]);
        }
        lemma_first_newline_at(rest, k - 1);
    }
}

/// Tests a character for white space.
pub fn char_is_whitespace(c: char) -> (b: bool)
    ensures
        b == is_whitespace(c),
{
    let n: u32 = c as u32;
    (0x09 <= n && n <= 0x0D) || n == 0x20 || n == 0x85 || n == 0xA0 || n == 0x1680 || (0x2000 <= n
        && n <= 0x200A) || n == 0x2028 || n == 0x2029 || n == 0x202F || n == 0x205F || n == 0x3000
}

/// The characters of `s`, in order.
pub fn chars_of(s: &str) -> (chars: Vec<char>)
    ensures
        chars@ == s@,
{
    let mut chars: Vec<char> = Vec::new();
    for c in it: s.chars()
        invariant
            it.seq() == s@,
            chars@ == s@.take(it.index()),
    {
        chars.push(c);
    }
    chars
}

/// Whether two texts hold the same characters.
pub fn same_text(a: &str, b: &str) -> (same: bool)
    ensures
        same == (a@ == b@),
{
    let left = chars_of(a);
    let right = chars_of(b);
    if left.len() != right.len() {
        return false;
    }
    let mut i: usize = 0;
    while i < left.len()
        invariant
            i <= left.len(),
            left.len() == right.len(),
            left@ == a@,
            right@ == b@,
            forall|j: int| 0 <= j < i ==> left@[j] == right@[j],
        decreases left.len() - i,
    {
        if left[i] != right[i] {
            return false;
        }
        i += 1;
    }
    assert(a@ =~= b@);
    true
}

/// The first position from `from` on, below `to`, whose character is not white
/// space; `to` if there is none.
pub(crate) fn skip_whitespace(chars: &Vec<char>, from: usize, to: usize) -> (k: usize)
    requires
        from <= to <= chars.len(),
    ensures
        from <= k <= to,
        forall|i: int| from <= i < k ==> is_whitespace(#[trigger] chars@[i]),
        k < to ==> !is_whitespace(chars@[k as int]),
{
    let mut k: usize = from;
    while k < to && char_is_whitespace(chars[k])
        invariant
            from <= k <= to <= chars.len(),
            forall|i: int| from <= i < k ==> is_whitespace(#[trigger] chars@[i]),
        decreases to - k,
    {
        k += 1;
    }
    k
}

/// The end of the text between `from` and `to` once its trailing white space
/// is left out.
pub(crate) fn skip_whitespace_back(chars: &Vec<char>, from: usize, to: usize) -> (k: usize)
    requires
        from <= to <= chars.len(),
    ensures
        from <= k <= to,
        forall|i: int| k <= i < to ==> is_whitespace(#[trigger] chars@[i]),
        k > from ==> !is_whitespace(chars@[k - 1]),
{
    let mut k: usize = to;
    while k > from && char_is_whitespace(chars[k - 1])
        invariant
            from <= k <= to <= chars.len(),
            forall|i: int| k <= i < to ==> is_whitespace(#[trigger] chars@[i]),
        decreases k - from,
    {
        k -= 1;
    }
    k
}

/// `s` without its leading and trailing white space.
pub fn trimmed(s: &str) -> (t: &str)
    ensures
        t@ == trim(s@),
{
    let chars = chars_of(s);
    let n = chars.len();
    let start = skip_whitespace(&chars, 0, n);
    let end = skip_whitespace_back(&chars, start, n);
    proof {
        lemma_trim_start_at(s@, start as int);
        let tail = s@.skip(start as int);
        assert forall|i: int| end - start <= i < tail.len() implies is_whitespace(
            #[trigger] tail[i],
        ) by {
            assert(tail[i] == s@[start + i]);
        }
        lemma_trim_end_at(tail, end - start);
        assert(tail.take(end - start) =~= s@.subrange(start as int, end as int));
    }
    s.substring_char(start, end)
}

/// The lines of `s`, each as a text of its own.
pub fn lines_of(s: &str) -> (result: Vec<String>)
    ensures
        result.deep_view() == lines(s@),
{
    let chars = chars_of(s);
    let n = chars.len();
    let mut result: Vec<String> = Vec::new();
    let mut start: usize = 0;
    assert(s@.skip(0) =~= s@);
    while start < n
        invariant
            start <= n,
            n == chars.len(),
            chars@ == s@,
            lines(s@) == result.deep_view() + lines(s@.skip(start as int)),
        decreases n - start,
    {
        let mut end: usize = start;
        while end < n && chars[end] != '\n'
            invariant
                start <= end <= n,
                n == chars.len(),
                forall|i: int| start <= i < end ==> #[trigger] chars@[i] != '\n',
            decreases n - end,
        {
            end += 1;
        }
        let ghost rest = s@.skip(start as int);
        let ghost before = result.deep_view();
        proof {
            assert forall|i: int| 0 <= i < end - start implies #[trigger] rest[i] != '\n' by {
                assert(rest[i] == chars@[start + i]);
            }
            lemma_first_newline_at(rest, end - start);
        }
        if end < n {
            let stop: usize = if end > start && chars[end - 1] == '\r' {
                end - 1
            } else {
                end
            };
            let line = s.substring_char(start, stop).to_owned();
            result.push(line);
            proof {
                let cut = rest.take(end - start);
                assert(cut =~= s@.subrange(start as int, end as int));
                assert(line@ =~= strip_carriage_return(cut));
                assert(rest.skip(end - start + 1) =~= s@.skip(end + 1));
                assert(result.deep_view() =~= before + seq![line@]);
            }
            start = end + 1;
        } else {
            let line = s.substring_char(start, n).to_owned();
            result.push(line);
            proof {
                assert(line@ =~= rest);
                assert(result.deep_view() =~= before + seq![rest]);
                assert(s@.skip(n as int).len() == 0);
            }
            start = n;
        }
    }
    result
}

/// The texts of `parts` in order, with `separator` between each two neighbours.
pub fn joined(parts: &Vec<String>, separator: &str) -> (text: String)
    ensures
        text@ == join(parts.deep_view(), separator@),
{
    let mut text = String::new();
    let ghost all = parts.deep_view();
    let mut i: usize = 0;
    assert(all.take(0) =~= Seq::<Seq<char>>::empty());
    while i < parts.len()
        invariant
            i <= parts.len(),
            all == parts.deep_view(),
            text@ == join(all.take(i as int), separator@),
        decreases parts.len() - i,
    {
        if i > 0 {
            text.append(separator);
        }
        text.append(parts[i].as_str());
        proof {
            let upto = all.take(i + 1);
            assert(upto.drop_last() =~= all.take(i as int));
            assert(upto.last() == parts[i as int]@);
        }
        i += 1;
    }
    assert(all.take(parts.len() as int) =~= all);
    text
}

} // verus!
