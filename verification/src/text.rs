//! Character-level text utilities with exact specifications.

use vstd::prelude::*;

verus! {

/// `String::push` from std: appends one character to the string.
#[verifier::external_body]
fn push_char(s: &mut String, c: char)
    ensures
        final(s)@ == old(s)@.push(c),
{
    s.push(c)
}

/// The characters of `s`, in order.
pub fn chars_of(s: &str) -> (v: Vec<char>)
    ensures
        v@ == s@,
{
    let n = s.unicode_len();
    let mut v: Vec<char> = Vec::new();
    for i in 0..n
        invariant
            n == s@.len(),
            v@ == s@.subrange(0, i as int),
    {
        let c = s.get_char(i);
        v.push(c);
        assert(s@.subrange(0, i + 1) =~= s@.subrange(0, i as int).push(c));
    }
    assert(s@.subrange(0, n as int) =~= s@);
    v
}

/// The string made of the characters of `v`, in order.
pub fn string_of(v: &[char]) -> (s: String)
    ensures
        s@ == v@,
{
    let mut s = String::new();
    for i in 0..v.len()
        invariant
            s@ == v@.subrange(0, i as int),
    {
        push_char(&mut s, v[i]);
        assert(v@.subrange(0, i + 1) =~= v@.subrange(0, i as int).push(v@[i as int]));
    }
    assert(v@.subrange(0, v@.len() as int) =~= v@);
    s
}


/// Unicode `White_Space`, the property that `char::is_whitespace` tests.
pub open spec fn is_ws(c: char) -> bool {
    ||| '\t' <= c <= '\r'
    ||| c == ' '
    ||| c == '\u{85}'
    ||| c == '\u{A0}'
    ||| c == '\u{1680}'
    ||| '\u{2000}' <= c <= '\u{200A}'
    ||| c == '\u{2028}'
    ||| c == '\u{2029}'
    ||| c == '\u{202F}'
    ||| c == '\u{205F}'
    ||| c == '\u{3000}'
}

/// `s` without its leading white space.
pub open spec fn trim_start(s: Seq<char>) -> Seq<char>
    decreases s.len(),
{
    if s.len() > 0 && is_ws(s[0]) {
        trim_start(s.drop_first())
    } else {
        s
    }
}

/// `s` without its trailing white space.
pub open spec fn trim_end(s: Seq<char>) -> Seq<char>
    decreases s.len(),
{
    if s.len() > 0 && is_ws(s.last()) {
        trim_end(s.drop_last())
    } else {
        s
    }
}

/// `s` without leading and trailing white space (what `str::trim` gives).
pub open spec fn trim(s: Seq<char>) -> Seq<char> {
    trim_end(trim_start(s))
}

/// Whether `t` occurs in `s` at position `i`.
pub open spec fn occurs_at(s: Seq<char>, t: Seq<char>, i: int) -> bool {
    0 <= i && i + t.len() <= s.len() && s.subrange(i, i + t.len()) == t
}

/// Whether `t` is a substring of `s` (what `str::contains` with a string pattern tests).
pub open spec fn contains(s: Seq<char>, t: Seq<char>) -> bool {
    exists|i: int| occurs_at(s, t, i)
}

/// Whether `s` ends with the character `c`.
pub open spec fn ends_with_char(s: Seq<char>, c: char) -> bool {
    s.len() > 0 && s.last() == c
}

fn ws(c: char) -> (b: bool)
    ensures
        b == is_ws(c),
{
    ('\t' <= c && c <= '\r') || c == ' ' || c == '\u{85}' || c == '\u{A0}' || c == '\u{1680}'
        || ('\u{2000}' <= c && c <= '\u{200A}') || c == '\u{2028}' || c == '\u{2029}'
        || c == '\u{202F}' || c == '\u{205F}' || c == '\u{3000}'
}

proof fn lemma_trim_start_skip(s: Seq<char>, i: int)
    requires
        0 <= i <= s.len(),
        forall|k: int| 0 <= k < i ==> is_ws(#[trigger] s[k]),
    ensures
        trim_start(s) == trim_start(s.subrange(i, s.len() as int)),
    decreases i,
{
    if i > 0 {
        lemma_trim_start_skip(s.drop_first(), i - 1);
        assert(s.drop_first().subrange(i - 1, s.drop_first().len() as int) =~= s.subrange(
            i,
            s.len() as int,
        ));
    } else {
        assert(s.subrange(0, s.len() as int) =~= s);
    }
}

proof fn lemma_trim_end_cut(s: Seq<char>, j: int)
    requires
        0 <= j <= s.len(),
        forall|k: int| j <= k < s.len() ==> is_ws(#[trigger] s[k]),
    ensures
        trim_end(s) == trim_end(s.subrange(0, j)),
    decreases s.len() - j,
{
    if j < s.len() {
        lemma_trim_end_cut(s.drop_last(), j);
        assert(s.drop_last().subrange(0, j) =~= s.subrange(0, j));
    } else {
        assert(s.subrange(0, j) =~= s);
    }
}

/// `s` with leading and trailing white space removed, as `str::trim` does.
pub fn trim_chars(s: &[char]) -> (r: Vec<char>)
    ensures
        r@ == trim(s@),
{
    let n = s.len();
    let mut i: usize = 0;
    while i < n && ws(s[i])
        invariant
            i <= n == s@.len(),
            forall|k: int| 0 <= k < i ==> is_ws(#[trigger] s@[k]),
        decreases n - i,
    {
        i = i + 1;
    }
    proof {
        lemma_trim_start_skip(s@, i as int);
    }
    let ghost rest = s@.subrange(i as int, n as int);
    assert(trim_start(rest) == rest);
    let mut j: usize = n;
    while j > i && ws(s[j - 1])
        invariant
            i <= j <= n == s@.len(),
            forall|k: int| j <= k < n ==> is_ws(#[trigger] s@[k]),
        decreases j,
    {
        j = j - 1;
    }
    proof {
        let m = (j - i) as int;
        assert forall|k: int| m <= k < rest.len() implies is_ws(#[trigger] rest[k]) by {
            assert(rest[k] == s@[k + i]);
        }
        lemma_trim_end_cut(rest, m);
        assert(rest.subrange(0, m) =~= s@.subrange(i as int, j as int));
        if m > 0 {
            assert(rest.subrange(0, m).last() == s@[j - 1]);
        }
    }
    let mut r: Vec<char> = Vec::new();
    let mut k: usize = i;
    while k < j
        invariant
            i <= k <= j <= n == s@.len(),
            r@ == s@.subrange(i as int, k as int),
        decreases j - k,
    {
        r.push(s[k]);
        assert(s@.subrange(i as int, k + 1) =~= s@.subrange(i as int, k as int).push(s@[k as int]));
        k = k + 1;
    }
    r
}

/// Whether `t` occurs at position `i` of `s`.
fn matches_at(s: &[char], t: &[char], i: usize) -> (b: bool)
    requires
        i <= s.len(),
    ensures
        b == occurs_at(s@, t@, i as int),
{
    if t.len() > s.len() - i {
        return false;
    }
    let mut k: usize = 0;
    while k < t.len()
        invariant
            i + t.len() <= s.len(),
            s.len() == s@.len(),
            t.len() == t@.len(),
            k <= t@.len(),
            forall|m: int| 0 <= m < k ==> s@[i + m] == t@[m],
        decreases t.len() - k,
    {
        if s[i + k] != t[k] {
            assert(s@.subrange(i as int, i + t@.len())[k as int] != t@[k as int]);
            return false;
        }
        k = k + 1;
    }
    assert(s@.subrange(i as int, i + t@.len()) =~= t@);
    true
}

/// Whether `t` is a substring of `s`, as `str::contains` decides.
pub fn contains_chars(s: &[char], t: &[char]) -> (b: bool)
    ensures
        b == contains(s@, t@),
{
    if t.len() > s.len() {
        assert(forall|i: int| !occurs_at(s@, t@, i));
        return false;
    }
    let last = s.len() - t.len();
    let mut i: usize = 0;
    loop
        invariant
            last + t@.len() == s@.len(),
            i <= last,
            forall|k: int| 0 <= k < i ==> !occurs_at(s@, t@, k),
        ensures
            forall|k: int| 0 <= k <= last ==> !occurs_at(s@, t@, k),
        decreases last - i,
    {
        if matches_at(s, t, i) {
            return true;
        }
        if i == last {
            break;
        }
        i = i + 1;
    }
    assert(forall|k: int| !occurs_at(s@, t@, k));
    false
}


/// `s` with every occurrence of `t` replaced by `r`, scanning from the left
/// and never overlapping, as `str::replace` does. An empty `t` matches
/// before every character and at the end.
pub open spec fn replace_all(s: Seq<char>, t: Seq<char>, r: Seq<char>) -> Seq<char>
    decreases s.len(),
{
    if t.len() == 0 {
        if s.len() == 0 {
            r
        } else {
            r + seq![s[0]] + replace_all(s.drop_first(), t, r)
        }
    } else if occurs_at(s, t, 0) {
        r + replace_all(s.subrange(t.len() as int, s.len() as int), t, r)
    } else if s.len() == 0 {
        seq![]
    } else {
        seq![s[0]] + replace_all(s.drop_first(), t, r)
    }
}

/// Replacing starts at the leftmost occurrence: when a non-empty `t` first
/// occurs in `s` at `i`, the text before `i` is kept as it is, that
/// occurrence becomes `r`, and replacing goes on after it.
pub proof fn lemma_replace_at_leftmost(s: Seq<char>, t: Seq<char>, r: Seq<char>, i: int)
    requires
        t.len() > 0,
        occurs_at(s, t, i),
        forall|j: int| 0 <= j < i ==> !occurs_at(s, t, j),
    ensures
        replace_all(s, t, r) == s.subrange(0, i) + r + replace_all(s.subrange(i + t.len(), s.len() as int), t, r),
    decreases i,
{
    if i == 0 {
        assert(s.subrange(0, 0) + r =~= r);
    } else {
        let s1 = s.drop_first();
        assert(!occurs_at(s, t, 0));
        assert(occurs_at(s1, t, i - 1)) by {
            assert(s1.subrange(i - 1, i - 1 + t.len()) =~= s.subrange(i, i + t.len()));
        }
        assert forall|j: int| 0 <= j < i - 1 implies !occurs_at(s1, t, j) by {
            assert(!occurs_at(s, t, j + 1));
            if occurs_at(s1, t, j) {
                assert(s1.subrange(j, j + t.len()) =~= s.subrange(j + 1, j + 1 + t.len()));
            }
        }
        lemma_replace_at_leftmost(s1, t, r, i - 1);
        assert(s1.subrange(i - 1 + t.len(), s1.len() as int) =~= s.subrange(i + t.len(), s.len() as int));
        assert(seq![s[0]] + s1.subrange(0, i - 1) =~= s.subrange(0, i));
        assert(seq![s[0]] + (s1.subrange(0, i - 1) + r + replace_all(s.subrange(i + t.len(), s.len() as int), t, r))
            =~= s.subrange(0, i) + r + replace_all(s.subrange(i + t.len(), s.len() as int), t, r));
    }
}

/// A text in which a non-empty `t` does not occur is left as it is.
pub proof fn lemma_replace_without_occurrence(s: Seq<char>, t: Seq<char>, r: Seq<char>)
    requires
        t.len() > 0,
        !contains(s, t),
    ensures
        replace_all(s, t, r) == s,
    decreases s.len(),
{
    if s.len() > 0 {
        let s1 = s.drop_first();
        assert(!occurs_at(s, t, 0));
        assert(!contains(s1, t)) by {
            if contains(s1, t) {
                let j = choose|j: int| occurs_at(s1, t, j);
                assert(s1.subrange(j, j + t.len()) =~= s.subrange(j + 1, j + 1 + t.len()));
                assert(occurs_at(s, t, j + 1));
            }
        }
        lemma_replace_without_occurrence(s1, t, r);
        assert(seq![s[0]] + s1 =~= s);
    }
}

/// An empty target matches before every character and at the end: the
/// replacement of nothing is `r`, and one more character `c` adds `c`
/// followed by one more `r`.
pub proof fn lemma_replace_empty_target(s: Seq<char>, c: char, r: Seq<char>)
    ensures
        replace_all(Seq::<char>::empty(), Seq::<char>::empty(), r) == r,
        replace_all(s.push(c), Seq::<char>::empty(), r) == replace_all(s, Seq::<char>::empty(), r) + seq![c] + r,
    decreases s.len(),
{
    let e = Seq::<char>::empty();
    if s.len() == 0 {
        assert(s.push(c) =~= seq![c]);
        assert(seq![c].drop_first() =~= e);
        assert(replace_all(e, e, r) == r);
        assert(replace_all(seq![c], e, r) == r + seq![seq![c][0]] + replace_all(seq![c].drop_first(), e, r));
        assert(seq![seq![c][0]] =~= seq![c]);
        assert(s =~= e);
    } else {
        lemma_replace_empty_target(s.drop_first(), c, r);
        assert(s.push(c).drop_first() =~= s.drop_first().push(c));
        assert(s.push(c)[0] == s[0]);
        assert(replace_all(s.push(c), e, r) == r + seq![s.push(c)[0]] + replace_all(s.push(c).drop_first(), e, r));
        assert(replace_all(s, e, r) == r + seq![s[0]] + replace_all(s.drop_first(), e, r));
        assert(r + seq![s[0]] + (replace_all(s.drop_first(), e, r) + seq![c] + r) =~= (r + seq![s[0]]
            + replace_all(s.drop_first(), e, r)) + seq![c] + r);
    }
}

/// Replaces every occurrence of `t` in `s` by `r`, as `str::replace` does.
pub fn replace_chars(s: &[char], t: &[char], r: &[char]) -> (out: Vec<char>)
    ensures
        out@ == replace_all(s@, t@, r@),
{
    let n = s.len();
    let mut out: Vec<char> = Vec::new();
    let mut i: usize = 0;
    assert(s@.subrange(0, n as int) =~= s@);
    assert(out@ + replace_all(s@, t@, r@) =~= replace_all(s@, t@, r@));
    while i < n
        invariant
            n == s@.len(),
            i <= n,
            replace_all(s@, t@, r@) == out@ + replace_all(s@.subrange(i as int, n as int), t@, r@),
        decreases n - i,
    {
        let ghost rest = s@.subrange(i as int, n as int);
        assert(rest.drop_first() =~= s@.subrange(i + 1, n as int));
        assert(rest[0] == s@[i as int]);
        if t.len() == 0 {
            let ghost before = out@;
            out.extend_from_slice(r);
            out.push(s[i]);
            assert(out@ =~= before + (r@ + seq![s@[i as int]]));
            i = i + 1;
        } else if matches_at(s, t, i) {
            assert(rest.subrange(0, t@.len() as int) =~= s@.subrange(i as int, i + t@.len()));
            assert(rest.subrange(t@.len() as int, rest.len() as int) =~= s@.subrange(
                i + t@.len(),
                n as int,
            ));
            let ghost before = out@;
            out.extend_from_slice(r);
            assert(out@ =~= before + r@);
            i = i + t.len();
        } else {
            assert(!occurs_at(rest, t@, 0)) by {
                if occurs_at(rest, t@, 0) {
                    assert(rest.subrange(0, t@.len() as int) =~= s@.subrange(
                        i as int,
                        i + t@.len(),
                    ));
                }
            }
            let ghost before = out@;
            out.push(s[i]);
            assert(out@ =~= before + seq![s@[i as int]]);
            i = i + 1;
        }
    }
    assert(s@.subrange(n as int, n as int) =~= Seq::<char>::empty());
    if t.len() == 0 {
        out.extend_from_slice(r);
    }
    out
}

/// What `append_to_file` writes: the existing text, a line break if it is
/// not empty and does not already end with one, the new content, and a
/// final line break unless the content already ends with one.
pub open spec fn appended_text(existing: Seq<char>, content: Seq<char>) -> Seq<char> {
    let head = if existing.len() > 0 && !ends_with_char(existing, '\n') {
        existing.push('\n')
    } else {
        existing
    };
    if ends_with_char(content, '\n') {
        head + content
    } else {
        (head + content).push('\n')
    }
}

/// Appending keeps the existing text, puts the content on a line of its own
/// and ends with a line break: the result starts with `existing`; a line
/// break follows when `existing` is not empty and does not end with one;
/// then comes `content`, whole; then a line break unless `content` ends
/// with one, and nothing else.
pub proof fn lemma_append_puts_content_on_its_own_line(existing: Seq<char>, content: Seq<char>)
    ensures
        ({
            let a = appended_text(existing, content);
            let sep = existing.len() > 0 && existing[existing.len() - 1] != '\n';
            let k: int = if sep { existing.len() + 1int } else { existing.len() as int };
            let ends = content.len() > 0 && content[content.len() - 1] == '\n';
            &&& a.subrange(0, existing.len() as int) == existing
            &&& sep ==> a[existing.len() as int] == '\n'
            &&& a.subrange(k, k + content.len()) == content
            &&& a.len() == k + content.len() + (if ends { 0int } else { 1int })
            &&& a.len() > 0 && a[a.len() - 1] == '\n'
        }),
{
    let a = appended_text(existing, content);
    let sep = existing.len() > 0 && existing[existing.len() - 1] != '\n';
    let head = if sep { existing.push('\n') } else { existing };
    assert(existing.len() > 0 ==> existing.last() == existing[existing.len() - 1]);
    assert(content.len() > 0 ==> content.last() == content[content.len() - 1]);
    let k = head.len() as int;
    if ends_with_char(content, '\n') {
        assert(a == head + content);
    } else {
        assert(a == (head + content).push('\n'));
    }
    assert(a.subrange(0, existing.len() as int) =~= existing);
    assert(a.subrange(k, k + content.len()) =~= content);
}

/// The text that appending `content` to a file holding `existing` yields.
pub fn append_text(existing: &str, content: &str) -> (r: String)
    ensures
        r@ == appended_text(existing@, content@),
{
    let mut v = chars_of(existing);
    if v.len() > 0 && v[v.len() - 1] != '\n' {
        v.push('\n');
    }
    let c = chars_of(content);
    v.extend_from_slice(&c);
    if !(c.len() > 0 && c[c.len() - 1] == '\n') {
        v.push('\n');
    }
    string_of(&v)
}

/// `str::replace` on strings: every occurrence of `target` in `s` replaced by `replacement`.
pub fn replace_text(s: &str, target: &str, replacement: &str) -> (r: String)
    ensures
        r@ == replace_all(s@, target@, replacement@),
{
    let sc = chars_of(s);
    let tc = chars_of(target);
    let rc = chars_of(replacement);
    let out = replace_chars(&sc, &tc, &rc);
    string_of(&out)
}

/// `str::trim` on strings.
pub fn trim_text(s: &str) -> (r: String)
    ensures
        r@ == trim(s@),
{
    let c = chars_of(s);
    let t = trim_chars(&c);
    string_of(&t)
}


/// The decimal digit character for `d` (below ten).
pub open spec fn digit_char(d: nat) -> char {
    if d == 0 { '0' }
    else if d == 1 { '1' }
    else if d == 2 { '2' }
    else if d == 3 { '3' }
    else if d == 4 { '4' }
    else if d == 5 { '5' }
    else if d == 6 { '6' }
    else if d == 7 { '7' }
    else if d == 8 { '8' }
    else { '9' }
}

/// The decimal notation of `n`, without leading zeros (`0` for zero), as
/// `{}` formats an unsigned integer.
pub open spec fn decimal(n: nat) -> Seq<char>
    decreases n,
{
    if n < 10 {
        seq![digit_char(n)]
    } else {
        decimal(n / 10).push(digit_char(n % 10))
    }
}

fn digit(d: u128) -> (c: char)
    requires
        d < 10,
    ensures
        c == digit_char(d as nat),
{
    if d == 0 { '0' }
    else if d == 1 { '1' }
    else if d == 2 { '2' }
    else if d == 3 { '3' }
    else if d == 4 { '4' }
    else if d == 5 { '5' }
    else if d == 6 { '6' }
    else if d == 7 { '7' }
    else if d == 8 { '8' }
    else { '9' }
}

/// The decimal notation of `n`.
pub fn decimal_string(n: u128) -> (s: String)
    ensures
        s@ == decimal(n as nat),
{
    // Digits are produced least significant first.
    let mut rev: Vec<char> = Vec::new();
    let mut m: u128 = n;
    let ghost mut acc: Seq<char> = seq![];
    loop
        invariant_except_break
            decimal(n as nat) == decimal(m as nat) + acc,
        invariant
            rev@ == acc.reverse(),
        ensures
            decimal(n as nat) == acc,
            rev@ == acc.reverse(),
        decreases m,
    {
        if m < 10 {
            let ghost old_acc = acc;
            rev.push(digit(m));
            proof {
                acc = seq![digit_char(m as nat)] + acc;
                assert(rev@ =~= acc.reverse()) by {
                    assert forall|k: int| 0 <= k < rev@.len() implies rev@[k] == acc.reverse()[k] by {
                        if k < old_acc.len() {
                            assert(rev@[k] == old_acc.reverse()[k]);
                        }
                    }
                }
                assert(decimal(n as nat) =~= acc);
            }
            break;
        }
        let d = m % 10;
        let ghost old_acc = acc;
        rev.push(digit(d));
        proof {
            acc = seq![digit_char(d as nat)] + acc;
            assert(decimal(m as nat) == decimal((m / 10) as nat).push(digit_char(d as nat)));
            assert(decimal(m as nat) + old_acc =~= decimal((m / 10) as nat) + acc);
            assert(rev@ =~= acc.reverse()) by {
                assert forall|k: int| 0 <= k < rev@.len() implies rev@[k] == acc.reverse()[k] by {
                    if k < old_acc.len() {
                        assert(rev@[k] == old_acc.reverse()[k]);
                    }
                }
            }
        }
        m = m / 10;
    }
    let mut out: Vec<char> = Vec::new();
    let mut i: usize = rev.len();
    while i > 0
        invariant
            i <= rev@.len(),
            rev@ == acc.reverse(),
            out@ == acc.subrange(0, (rev@.len() - i) as int),
            acc.len() == rev@.len(),
        decreases i,
    {
        i = i - 1;
        out.push(rev[i]);
        proof {
            let k = (rev@.len() - i - 1) as int;
            assert(rev@[i as int] == acc[k]);
            assert(acc.subrange(0, k + 1) =~= acc.subrange(0, k).push(acc[k]));
        }
    }
    assert(acc.subrange(0, acc.len() as int) =~= acc);
    string_of(&out)
}

/// `s` split at every occurrence of `sep` (what `str::split` yields).
pub open spec fn split_on(s: Seq<char>, sep: char) -> Seq<Seq<char>>
    decreases s.len(),
{
    if s.len() == 0 {
        seq![seq![]]
    } else {
        let p = split_on(s.drop_last(), sep);
        if s.last() == sep {
            p.push(seq![])
        } else {
            p.update(p.len() - 1, p.last().push(s.last()))
        }
    }
}

/// Splitting always yields at least one piece (the whole text when the
/// separator does not occur).
pub proof fn lemma_split_on_nonempty(s: Seq<char>, sep: char)
    ensures
        split_on(s, sep).len() > 0,
    decreases s.len(),
{
    if s.len() > 0 {
        lemma_split_on_nonempty(s.drop_last(), sep);
    }
}

/// The character vectors' contents.
pub open spec fn char_views(v: Seq<Vec<char>>) -> Seq<Seq<char>> {
    Seq::new(v.len(), |i: int| v[i]@)
}

/// `s` split at every occurrence of `sep`, as `str::split` does.
pub fn split_chars(s: &[char], sep: char) -> (r: Vec<Vec<char>>)
    ensures
        char_views(r@) == split_on(s@, sep),
{
    let mut pieces: Vec<Vec<char>> = Vec::new();
    let mut cur: Vec<char> = Vec::new();
    let mut i: usize = 0;
    assert(s@.subrange(0, 0) =~= Seq::<char>::empty());
    assert(char_views(pieces@).push(cur@) =~= seq![Seq::<char>::empty()]);
    while i < s.len()
        invariant
            i <= s@.len(),
            char_views(pieces@).push(cur@) == split_on(s@.subrange(0, i as int), sep),
        decreases s.len() - i,
    {
        let ghost pre = s@.subrange(0, i as int);
        assert(s@.subrange(0, i + 1).drop_last() =~= pre);
        proof {
            lemma_split_on_nonempty(pre, sep);
        }
        let ghost pv = char_views(pieces@);
        if s[i] == sep {
            let piece = cur;
            pieces.push(piece);
            cur = Vec::new();
            assert(char_views(pieces@) =~= pv.push(piece@));
            assert(char_views(pieces@).push(cur@) =~= pv.push(piece@).push(seq![]));
        } else {
            let ghost old_cur = cur@;
            cur.push(s[i]);
            assert(char_views(pieces@).push(cur@) =~= pv.push(old_cur).update(
                pv.len() as int,
                old_cur.push(s@[i as int]),
            ));
        }
        i = i + 1;
    }
    assert(s@.subrange(0, s@.len() as int) =~= s@);
    let last = cur;
    let ghost pv = char_views(pieces@);
    pieces.push(last);
    assert(char_views(pieces@) =~= pv.push(last@));
    pieces
}

} // verus!
