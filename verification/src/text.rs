use vstd::prelude::*;

verus! {

/// Unicode `White_Space`: the characters that `str::trim` removes.
pub open spec fn is_white_space(c: char) -> bool {
    ||| ('\u{9}' <= c && c <= '\u{d}')
    ||| c == ' '
    ||| c == '\u{85}'
    ||| c == '\u{a0}'
    ||| c == '\u{1680}'
    ||| ('\u{2000}' <= c && c <= '\u{200a}')
    ||| c == '\u{2028}'
    ||| c == '\u{2029}'
    ||| c == '\u{202f}'
    ||| c == '\u{205f}'
    ||| c == '\u{3000}'
}

/// `c` is Unicode `White_Space` (`char::is_whitespace`).
pub fn char_is_white_space(c: char) -> (b: bool)
    ensures
        b == is_white_space(c),
{
    ('\u{9}' <= c && c <= '\u{d}') || c == ' ' || c == '\u{85}' || c == '\u{a0}' || c == '\u{1680}'
        || ('\u{2000}' <= c && c <= '\u{200a}') || c == '\u{2028}' || c == '\u{2029}'
        || c == '\u{202f}' || c == '\u{205f}' || c == '\u{3000}'
}

/// The characters of an optional string.
pub open spec fn opt_chars(o: Option<String>) -> Option<Seq<char>> {
    match o {
        Some(s) => Some(s@),
        None => None,
    }
}

/// The characters of a string slice, in order.
pub fn to_chars(s: &str) -> (v: Vec<char>)
    ensures
        v@ == s@,
{
    let mut v: Vec<char> = Vec::new();
    for c in it: s.chars()
        invariant
            v@ == it.seq().take(it.index() as int),
    {
        v.push(c);
    }
    v
}


/// Trusted: `String::push` appends the given character to the end of the string.
#[verifier::external_body]
fn push_char(s: &mut String, c: char)
    ensures
        final(s)@ == old(s)@.push(c),
{
    s.push(c);
}

/// The string made of the given characters.
pub fn from_chars(v: &[char]) -> (s: String)
    ensures
        s@ == v@,
{
    let mut s = String::new();
    let mut i: usize = 0;
    while i < v.len()
        invariant
            i <= v.len(),
            s@ == v@.take(i as int),
        decreases v.len() - i,
    {
        push_char(&mut s, v[i]);
        assert(v@.take(i + 1) == v@.take(i as int).push(v@[i as int]));
        i = i + 1;
    }
    assert(v@.take(v.len() as int) == v@);
    s
}


/// The characters of `s` without its leading white space (`str::trim_start`).
pub open spec fn trim_start(s: Seq<char>) -> Seq<char>
    decreases s.len(),
{
    if s.len() > 0 && is_white_space(s[0]) {
        trim_start(s.drop_first())
    } else {
        s
    }
}

/// The characters of `s` without its trailing white space (`str::trim_end`).
pub open spec fn trim_end(s: Seq<char>) -> Seq<char>
    decreases s.len(),
{
    if s.len() > 0 && is_white_space(s.last()) {
        trim_end(s.drop_last())
    } else {
        s
    }
}

/// The characters of `s` without leading and trailing white space (`str::trim`).
pub open spec fn trim(s: Seq<char>) -> Seq<char> {
    trim_end(trim_start(s))
}

/// A copy of `s[a..b]`.
pub fn copy_range<T: Copy>(s: &[T], a: usize, b: usize) -> (r: Vec<T>)
    requires
        a <= b <= s@.len(),
    ensures
        r@ == s@.subrange(a as int, b as int),
{
    let mut r: Vec<T> = Vec::new();
    let mut i: usize = a;
    while i < b
        invariant
            a <= i <= b <= s@.len(),
            r@ == s@.subrange(a as int, i as int),
        decreases b - i,
    {
        r.push(s[i]);
        assert(s@.subrange(a as int, i + 1) == s@.subrange(a as int, i as int).push(s@[i as int]));
        i = i + 1;
    }
    r
}

/// The index of the first character of `s[lo..]` that is not white space.
fn skip_white_space(s: &[char], lo: usize) -> (i: usize)
    requires
        lo <= s@.len(),
    ensures
        lo <= i <= s@.len(),
        trim_start(s@.skip(lo as int)) == s@.skip(i as int),
{
    let mut i = lo;
    while i < s.len() && char_is_white_space(s[i])
        invariant
            lo <= i <= s@.len(),
            trim_start(s@.skip(lo as int)) == trim_start(s@.skip(i as int)),
        decreases s@.len() - i,
    {
        assert(s@.skip(i as int).drop_first() == s@.skip(i + 1));
        i = i + 1;
    }
    i
}

/// The end of `s[lo..hi]` once trailing white space is dropped.
fn back_over_white_space(s: &[char], lo: usize, hi: usize) -> (j: usize)
    requires
        lo <= hi <= s@.len(),
    ensures
        lo <= j <= hi,
        trim_end(s@.subrange(lo as int, hi as int)) == s@.subrange(lo as int, j as int),
{
    let mut j = hi;
    while j > lo && char_is_white_space(s[j - 1])
        invariant
            lo <= j <= hi <= s@.len(),
            trim_end(s@.subrange(lo as int, hi as int)) == trim_end(s@.subrange(lo as int, j as int)),
        decreases j - lo,
    {
        assert(s@.subrange(lo as int, j as int).drop_last() == s@.subrange(lo as int, j - 1));
        j = j - 1;
    }
    j
}

/// `s` with leading white space removed (`str::trim_start`).
pub fn trimmed_start(s: &[char]) -> (r: Vec<char>)
    ensures
        r@ == trim_start(s@),
{
    let i = skip_white_space(s, 0);
    assert(s@.skip(0) == s@);
    copy_range(s, i, s.len())
}

/// `s` with leading and trailing white space removed (`str::trim`).
pub fn trimmed(s: &[char]) -> (r: Vec<char>)
    ensures
        r@ == trim(s@),
{
    let i = skip_white_space(s, 0);
    assert(s@.skip(0) == s@);
    let j = back_over_white_space(s, i, s.len());
    assert(s@.skip(i as int) == s@.subrange(i as int, s@.len() as int));
    copy_range(s, i, j)
}


/// `pat` occurs in `s` at index `i`.
pub open spec fn matches_at(s: Seq<char>, pat: Seq<char>, i: int) -> bool {
    0 <= i && i + pat.len() <= s.len() && s.subrange(i, i + pat.len()) == pat
}

/// The index of the first occurrence of `pat` in `s` (`str::find`), counted in characters.
#[verifier::opaque]
pub open spec fn find(s: Seq<char>, pat: Seq<char>) -> Option<int> {
    if exists|i: int| matches_at(s, pat, i) {
        Some(choose|i: int| matches_at(s, pat, i) && forall|j: int| 0 <= j < i ==> !matches_at(s, pat, j))
    } else {
        None
    }
}

/// `s` holds `pat` (`str::contains`).
pub open spec fn contains(s: Seq<char>, pat: Seq<char>) -> bool {
    exists|i: int| matches_at(s, pat, i)
}

proof fn lemma_find_is_first(s: Seq<char>, pat: Seq<char>, i: int)
    requires
        matches_at(s, pat, i),
        forall|j: int| 0 <= j < i ==> !matches_at(s, pat, j),
    ensures
        find(s, pat) == Some(i),
{
    reveal(find);
    let w = choose|w: int| matches_at(s, pat, w) && forall|j: int| 0 <= j < w ==> !matches_at(s, pat, j);
    assert(matches_at(s, pat, w) && forall|j: int| 0 <= j < w ==> !matches_at(s, pat, j));
    if w < i {
        assert(!matches_at(s, pat, w));
    } else if w > i {
        assert(!matches_at(s, pat, i));
    }
}

/// `pat` occurs in `s` at `i` (checked at run time).
fn matches_here(s: &[char], pat: &[char], i: usize) -> (b: bool)
    requires
        i + pat@.len() <= s@.len(),
    ensures
        b == matches_at(s@, pat@, i as int),
{
    let mut k: usize = 0;
    while k < pat.len()
        invariant
            k <= pat@.len(),
            i + pat@.len() <= s.len(),
            forall|m: int| 0 <= m < k ==> s@[i + m] == pat@[m],
        decreases pat@.len() - k,
    {
        if s[i + k] != pat[k] {
            assert(s@.subrange(i as int, i + pat@.len())[k as int] != pat@[k as int]);
            return false;
        }
        k = k + 1;
    }
    assert(s@.subrange(i as int, i + pat@.len()) =~= pat@);
    true
}

/// The first occurrence of `pat` in `s` (`str::find`), as a character index.
pub fn find_chars(s: &[char], pat: &[char]) -> (r: Option<usize>)
    requires
        pat@.len() > 0,
    ensures
        r matches Some(i) ==> find(s@, pat@) == Some(i as int) && i + pat@.len() <= s@.len(),
        r is None ==> find(s@, pat@) is None,
        r is Some <==> contains(s@, pat@),
{
    reveal(find);
    let mut i: usize = 0;
    while pat.len() <= s.len() - i && i < s.len()
        invariant
            pat@.len() > 0,
            i <= s.len(),
            forall|j: int| 0 <= j < i ==> !matches_at(s@, pat@, j),
        decreases s@.len() - i,
    {
        if matches_here(s, pat, i) {
            proof { lemma_find_is_first(s@, pat@, i as int); }
            return Some(i);
        }
        i = i + 1;
    }
    assert forall|j: int| !matches_at(s@, pat@, j) by {
        if 0 <= j < i {
        }
    }
    None
}


/// `s` with every occurrence of `c` removed (`str::replace` of a one-character pattern by "").
pub open spec fn remove_char(s: Seq<char>, c: char) -> Seq<char>
    decreases s.len(),
{
    if s.len() == 0 {
        s
    } else if s.last() == c {
        remove_char(s.drop_last(), c)
    } else {
        remove_char(s.drop_last(), c).push(s.last())
    }
}

/// `s` with every occurrence of `c` removed.
pub fn removed_char(s: &[char], c: char) -> (r: Vec<char>)
    ensures
        r@ == remove_char(s@, c),
{
    let mut r: Vec<char> = Vec::new();
    let mut i: usize = 0;
    while i < s.len()
        invariant
            i <= s@.len(),
            r@ == remove_char(s@.take(i as int), c),
        decreases s@.len() - i,
    {
        assert(s@.take(i + 1).drop_last() == s@.take(i as int));
        if s[i] != c {
            r.push(s[i]);
        }
        i = i + 1;
    }
    assert(s@.take(s@.len() as int) == s@);
    r
}

/// `s` with every trailing `c` removed (`str::trim_end_matches` with a character).
pub open spec fn trim_end_char(s: Seq<char>, c: char) -> Seq<char>
    decreases s.len(),
{
    if s.len() > 0 && s.last() == c {
        trim_end_char(s.drop_last(), c)
    } else {
        s
    }
}

/// `s` with every trailing `c` removed.
pub fn trimmed_end_char(s: &[char], c: char) -> (r: Vec<char>)
    ensures
        r@ == trim_end_char(s@, c),
{
    let mut j: usize = s.len();
    assert(s@.take(s@.len() as int) == s@);
    while j > 0 && s[j - 1] == c
        invariant
            j <= s@.len(),
            trim_end_char(s@, c) == trim_end_char(s@.take(j as int), c),
        decreases j,
    {
        assert(s@.take(j as int).drop_last() == s@.take(j - 1));
        j = j - 1;
    }
    assert(s@.take(s@.len() as int) == s@);
    copy_range(s, 0, j)
}

/// `s` with every trailing copy of `pat` removed (`str::trim_end_matches` with a string).
pub open spec fn trim_end_pat(s: Seq<char>, pat: Seq<char>) -> Seq<char>
    decreases s.len(),
{
    if pat.len() > 0 && pat.len() <= s.len() && s.subrange(s.len() - pat.len(), s.len() as int) == pat {
        trim_end_pat(s.subrange(0, s.len() - pat.len()), pat)
    } else {
        s
    }
}

/// `s` with every trailing copy of `pat` removed.
pub fn trimmed_end_pat(s: &[char], pat: &[char]) -> (r: Vec<char>)
    requires
        pat@.len() > 0,
    ensures
        r@ == trim_end_pat(s@, pat@),
{
    let mut j: usize = s.len();
    assert(s@.take(s@.len() as int) == s@);
    while pat.len() <= j && matches_here(s, pat, j - pat.len())
        invariant
            j <= s@.len(),
            pat@.len() > 0,
            trim_end_pat(s@, pat@) == trim_end_pat(s@.take(j as int), pat@),
        decreases j,
    {
        assert(s@.take(j as int).subrange(j - pat@.len(), j as int) == s@.subrange(j - pat@.len(), j as int));
        assert(s@.take(j as int).subrange(0, j - pat@.len()) == s@.take(j - pat@.len()));
        j = j - pat.len();
    }
    proof {
        if pat@.len() <= j {
            assert(s@.take(j as int).subrange(j - pat@.len(), j as int) == s@.subrange(j - pat@.len(), j as int));
        }
    }
    assert(s@.take(s@.len() as int) == s@);
    copy_range(s, 0, j)
}


/// What `str::to_lowercase` returns for a string with the given characters: the lowercase
/// mapping of the Unicode standard, which does not depend on the locale.
pub uninterp spec fn lowercase(s: Seq<char>) -> Seq<char>;

/// Trusted: `str::to_lowercase`; the result is the library's name for it.
#[verifier::external_body]
fn str_to_lowercase(s: &str) -> (r: String)
    ensures
        r@ == lowercase(s@),
{
    s.to_lowercase()
}

/// The lowercase form of the given characters (`str::to_lowercase`).
pub fn lowercased(s: &[char]) -> (r: Vec<char>)
    ensures
        r@ == lowercase(s@),
{
    let st = from_chars(s);
    let lower = str_to_lowercase(st.as_str());
    to_chars(lower.as_str())
}


/// The index of the first `'\n'` in `s`, or the length of `s` when it holds none.
pub open spec fn newline_index(s: Seq<char>) -> int
    decreases s.len(),
{
    if s.len() == 0 {
        0
    } else if s[0] == '\n' {
        0
    } else {
        1 + newline_index(s.drop_first())
    }
}

pub proof fn lemma_newline_index(s: Seq<char>)
    ensures
        0 <= newline_index(s) <= s.len(),
        newline_index(s) < s.len() ==> s[newline_index(s)] == '\n',
        forall|j: int| 0 <= j < newline_index(s) ==> s[j] != '\n',
    decreases s.len(),
{
    if s.len() > 0 && s[0] != '\n' {
        lemma_newline_index(s.drop_first());
        assert forall|j: int| 0 <= j < newline_index(s) implies s[j] != '\n' by {
            if j > 0 {
                assert(s[j] == s.drop_first()[j - 1]);
            }
        }
    }
}

/// A line without the `'\r'` of a `"\r\n"` line ending.
pub open spec fn strip_cr(l: Seq<char>) -> Seq<char> {
    if l.len() > 0 && l.last() == '\r' {
        l.drop_last()
    } else {
        l
    }
}

/// The lines of `s` (`str::lines`): split at `'\n'`, with a `'\r'` before it removed; a final
/// line ending does not start another line.
pub open spec fn lines(s: Seq<char>) -> Seq<Seq<char>>
    decreases s.len(),
{
    if s.len() == 0 {
        seq![]
    } else {
        let k = newline_index(s);
        proof {
            lemma_newline_index(s);
        }
        if k < s.len() {
            seq![strip_cr(s.take(k))] + lines(s.skip(k + 1))
        } else {
            seq![s]
        }
    }
}

/// The character views of a vector of character vectors.
pub open spec fn views(v: Seq<Vec<char>>) -> Seq<Seq<char>> {
    v.map_values(|x: Vec<char>| x@)
}

/// The lines of `s` (`str::lines`).
pub fn split_lines(s: &[char]) -> (r: Vec<Vec<char>>)
    ensures
        views(r@) == lines(s@),
{
    let mut r: Vec<Vec<char>> = Vec::new();
    let mut pos: usize = 0;
    let n = s.len();
    assert(s@.skip(0) == s@);
    while pos < n
        invariant
            n == s@.len(),
            pos <= n,
            lines(s@) == views(r@) + lines(s@.skip(pos as int)),
        decreases n - pos,
    {
        let ghost rest = s@.skip(pos as int);
        let mut k: usize = pos;
        while k < n && s[k] != '\n'
            invariant
                n == s@.len(),
                pos <= k <= n,
                rest == s@.skip(pos as int),
                newline_index(rest) == (k - pos) + newline_index(s@.skip(k as int)),
            decreases n - k,
        {
            assert(s@.skip(k as int).drop_first() == s@.skip(k + 1));
            k = k + 1;
        }
        proof {
            lemma_newline_index(rest);
            assert(newline_index(rest) == k - pos);
        }
        let ghost old_r = r@;
        if k < n {
            let mut end = k;
            if end > pos && s[end - 1] == '\r' {
                end = end - 1;
            }
            let line = copy_range(s, pos, end);
            assert(rest.take((k - pos) as int) == s@.subrange(pos as int, k as int));
            assert(line@ == strip_cr(rest.take((k - pos) as int)));
            r.push(line);
            assert(rest.skip((k - pos) + 1) == s@.skip(k + 1));
            assert(views(r@) == views(old_r) + seq![line@]);
            pos = k + 1;
        } else {
            let line = copy_range(s, pos, n);
            assert(line@ == rest);
            r.push(line);
            assert(views(r@) == views(old_r) + seq![line@]);
            assert(s@.skip(n as int) == Seq::<char>::empty());
            pos = n;
        }
    }
    assert(s@.skip(n as int) == Seq::<char>::empty());
    assert(views(r@) + Seq::<Seq<char>>::empty() == views(r@));
    r
}


/// `a` comes strictly before `b` in lexicographic byte order.
pub open spec fn lex_lt(a: Seq<u8>, b: Seq<u8>) -> bool
    decreases a.len(),
{
    if b.len() == 0 {
        false
    } else if a.len() == 0 {
        true
    } else if a[0] != b[0] {
        a[0] < b[0]
    } else {
        lex_lt(a.drop_first(), b.drop_first())
    }
}

/// `a` comes strictly before `b` in lexicographic byte order.
pub fn bytes_lt(a: &[u8], b: &[u8]) -> (r: bool)
    ensures
        r == lex_lt(a@, b@),
{
    let mut i: usize = 0;
    assert(a@.skip(0) == a@);
    assert(b@.skip(0) == b@);
    while i < a.len() && i < b.len() && a[i] == b[i]
        invariant
            i <= a@.len(),
            i <= b@.len(),
            lex_lt(a@, b@) == lex_lt(a@.skip(i as int), b@.skip(i as int)),
        decreases a@.len() - i,
    {
        assert(a@.skip(i as int).drop_first() == a@.skip(i + 1));
        assert(b@.skip(i as int).drop_first() == b@.skip(i + 1));
        i = i + 1;
    }
    if i == b.len() {
        false
    } else if i == a.len() {
        true
    } else {
        a[i] < b[i]
    }
}


/// The character of a decimal digit.
pub open spec fn digit(d: int) -> char {
    (d + 48) as char
}

/// The decimal digits of `n`, without leading zeros (how `usize` is displayed).
pub open spec fn decimal(n: nat) -> Seq<char>
    decreases n,
{
    if n < 10 {
        seq![digit(n as int)]
    } else {
        decimal(n / 10).push(digit((n % 10) as int))
    }
}

/// Appends the decimal digits of `n` to `s`.
fn push_decimal(s: &mut Vec<char>, n: usize)
    ensures
        final(s)@ == old(s)@ + decimal(n as nat),
    decreases n,
{
    if n >= 10 {
        push_decimal(s, n / 10);
    }
    let d: u8 = (n % 10) as u8;
    let c = (d + 48) as char;
    assert(c == digit((n % 10) as int));
    s.push(c);
}

/// The decimal form of `n`, as `usize`'s `Display` writes it.
pub fn decimal_string(n: usize) -> (r: String)
    ensures
        r@ == decimal(n as nat),
{
    let mut v: Vec<char> = Vec::new();
    push_decimal(&mut v, n);
    assert(v@ == Seq::<char>::empty() + decimal(n as nat));
    from_chars(v.as_slice())
}


proof fn lemma_lex_lt_irreflexive(a: Seq<u8>)
    ensures
        !lex_lt(a, a),
    decreases a.len(),
{
    if a.len() > 0 {
        lemma_lex_lt_irreflexive(a.drop_first());
    }
}

proof fn lemma_lex_lt_asymmetric(a: Seq<u8>, b: Seq<u8>)
    ensures
        lex_lt(a, b) ==> !lex_lt(b, a),
    decreases a.len(),
{
    if a.len() > 0 && b.len() > 0 {
        lemma_lex_lt_asymmetric(a.drop_first(), b.drop_first());
    }
}

proof fn lemma_lex_lt_transitive(a: Seq<u8>, b: Seq<u8>, c: Seq<u8>)
    ensures
        lex_lt(a, b) && lex_lt(b, c) ==> lex_lt(a, c),
    decreases a.len(),
{
    if a.len() > 0 && b.len() > 0 && c.len() > 0 {
        lemma_lex_lt_transitive(a.drop_first(), b.drop_first(), c.drop_first());
    }
}

proof fn lemma_lex_lt_total(a: Seq<u8>, b: Seq<u8>)
    ensures
        a != b ==> lex_lt(a, b) || lex_lt(b, a),
    decreases a.len(),
{
    if a.len() > 0 && b.len() > 0 {
        lemma_lex_lt_total(a.drop_first(), b.drop_first());
        if a[0] == b[0] && a.drop_first() == b.drop_first() {
            assert(a =~= seq![a[0]] + a.drop_first());
            assert(b =~= seq![b[0]] + b.drop_first());
        }
    }
    if a.len() == 0 && b.len() == 0 {
        assert(a =~= b);
    }
}

/// Lexicographic byte order is a strict total order: irreflexive, transitive, and any two
/// different sequences compare one way only.
pub proof fn lemma_lex_lt_order(a: Seq<u8>, b: Seq<u8>, c: Seq<u8>)
    ensures
        !lex_lt(a, a),
        lex_lt(a, b) ==> !lex_lt(b, a),
        lex_lt(a, b) && lex_lt(b, c) ==> lex_lt(a, c),
        a != b ==> lex_lt(a, b) || lex_lt(b, a),
{
    lemma_lex_lt_irreflexive(a);
    lemma_lex_lt_asymmetric(a, b);
    lemma_lex_lt_transitive(a, b, c);
    lemma_lex_lt_total(a, b);
}

/// `c` with an ASCII upper-case letter mapped to its lower-case form.
pub open spec fn ascii_lower(c: char) -> char {
    if 'A' <= c && c <= 'Z' {
        ((c as u32) + 32) as char
    } else {
        c
    }
}

/// `a` and `b` are the same text up to ASCII case (`str::eq_ignore_ascii_case`).
pub open spec fn same_ignoring_ascii_case(a: Seq<char>, b: Seq<char>) -> bool {
    a.len() == b.len() && forall|i: int| 0 <= i < a.len() ==> ascii_lower(#[trigger] a[i]) == ascii_lower(b[i])
}

fn char_ascii_lower(c: char) -> (r: char)
    ensures
        r == ascii_lower(c),
{
    if 'A' <= c && c <= 'Z' {
        let b: u8 = ((c as u32) + 32) as u8;
        b as char
    } else {
        c
    }
}

/// `a` and `b` are the same text up to ASCII case (`str::eq_ignore_ascii_case`).
pub fn eq_ignore_ascii_case(a: &str, b: &str) -> (r: bool)
    ensures
        r == same_ignoring_ascii_case(a@, b@),
{
    let x = to_chars(a);
    let y = to_chars(b);
    if x.len() != y.len() {
        return false;
    }
    let mut i: usize = 0;
    while i < x.len()
        invariant
            x@ == a@,
            y@ == b@,
            x@.len() == y@.len(),
            i <= x@.len(),
            forall|k: int| 0 <= k < i ==> ascii_lower(#[trigger] x@[k]) == ascii_lower(y@[k]),
        decreases x@.len() - i,
    {
        if char_ascii_lower(x[i]) != char_ascii_lower(y[i]) {
            return false;
        }
        i = i + 1;
    }
    true
}

} // verus!
