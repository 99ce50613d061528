use vstd::prelude::*;

verus! {

/// Appends one character to a string (`String::push`).
#[verifier::external_body]
pub(crate) fn push_char(s: &mut String, c: char)
    ensures
        final(s)@ == old(s)@.push(c),
{
    s.push(c);
}

/// Appends a string slice to a string.
pub(crate) fn push_str(s: &mut String, t: &str)
    ensures
        final(s)@ == old(s)@ + t@,
{
    s.append(t);
}

/// The characters of a string slice, in order (`str::chars`, collected).
#[verifier::external_body]
pub(crate) fn chars_of(s: &str) -> (v: Vec<char>)
    ensures
        v@ == s@,
{
    s.chars().collect()
}

/// `parts[0] + sep + parts[1] + sep + ... + parts[n-1]`.
pub open spec fn join(parts: Seq<Seq<char>>, sep: Seq<char>) -> Seq<char>
    decreases parts.len(),
{
    if parts.len() == 0 {
        Seq::empty()
    } else if parts.len() == 1 {
        parts[0]
    } else {
        join(parts.drop_last(), sep) + sep + parts.last()
    }
}

/// Equality of two string slices (`<str as PartialEq>::eq`).
#[verifier::external_body]
pub(crate) fn str_eq(a: &str, b: &str) -> (r: bool)
    ensures
        r == (a@ == b@),
{
    a == b
}

/// An ASCII lowercase letter.
pub open spec fn ascii_lower(c: char) -> bool {
    97 <= (c as u32) <= 122
}

/// An ASCII uppercase letter.
pub open spec fn ascii_upper(c: char) -> bool {
    65 <= (c as u32) <= 90
}

/// An ASCII decimal digit.
pub open spec fn ascii_digit(c: char) -> bool {
    48 <= (c as u32) <= 57
}

/// Whether the character is alphanumeric in the Unicode sense (`char::is_alphanumeric`).
pub uninterp spec fn alphanumeric(c: char) -> bool;

/// `char::is_alphanumeric`. Its documentation: alphabetic or numeric; among ASCII characters
/// these are exactly the letters and the digits.
#[verifier::external_body]
pub(crate) fn char_is_alphanumeric(c: char) -> (r: bool)
    ensures
        r == alphanumeric(c),
        (c as u32) < 128 ==> (r <==> (ascii_lower(c) || ascii_upper(c) || ascii_digit(c))),
{
    c.is_alphanumeric()
}

/// Whether `c` is an ASCII lowercase letter.
pub fn is_ascii_lower(c: char) -> (r: bool)
    ensures
        r == ascii_lower(c),
{
    'a' <= c && c <= 'z'
}

/// Whether `c` is an ASCII uppercase letter.
pub fn is_ascii_upper(c: char) -> (r: bool)
    ensures
        r == ascii_upper(c),
{
    'A' <= c && c <= 'Z'
}

/// The text that `Debug` gives of a string: quoted, with escapes.
pub uninterp spec fn debug_text(s: Seq<char>) -> Seq<char>;

/// `<str as Debug>::fmt`, through `format!("{:?}", s)`.
#[verifier::external_body]
pub(crate) fn debug_str(s: &str) -> (r: String)
    ensures
        r@ == debug_text(s@),
{
    format!("{:?}", s)
}

/// The text that `Debug` gives of a character: quoted, with escapes.
pub uninterp spec fn char_debug_text(c: char) -> Seq<char>;

/// `<char as Debug>::fmt`, through `format!("{:?}", c)`.
#[verifier::external_body]
pub(crate) fn debug_char(c: char) -> (r: String)
    ensures
        r@ == char_debug_text(c),
{
    format!("{:?}", c)
}

/// The texts of a sequence of strings.
pub open spec fn strings_view(v: Seq<String>) -> Seq<Seq<char>> {
    v.map_values(|s: String| s@)
}

/// Whether the character has the Unicode `White_Space` property: tab, line feed, vertical
/// tab, form feed, carriage return, space, next line, no-break space, Ogham space mark, the
/// spaces from en quad to hair space, line separator, paragraph separator, narrow no-break
/// space, medium mathematical space and ideographic space.
pub open spec fn whitespace(c: char) -> bool {
    let u = c as u32;
    ||| 9 <= u <= 13
    ||| u == 0x20
    ||| u == 0x85
    ||| u == 0xA0
    ||| u == 0x1680
    ||| 0x2000 <= u <= 0x200A
    ||| u == 0x2028
    ||| u == 0x2029
    ||| u == 0x202F
    ||| u == 0x205F
    ||| u == 0x3000
}

/// The ASCII characters with the Unicode `White_Space` property: tab, line feed, vertical tab,
/// form feed, carriage return and space.
pub open spec fn ascii_whitespace(c: char) -> bool {
    9 <= (c as u32) <= 13 || (c as u32) == 32
}

/// Whether the character is white space, as `whitespace` says (what `char::is_whitespace`
/// decides).
pub(crate) fn char_is_whitespace(c: char) -> (r: bool)
    ensures
        r == whitespace(c),
        (c as u32) < 128 ==> (r <==> ascii_whitespace(c)),
{
    ('\t' <= c && c <= '\r') || c == ' ' || c == '\u{85}' || c == '\u{A0}' || c == '\u{1680}' || ('\u{2000}' <= c
        && c <= '\u{200A}') || c == '\u{2028}' || c == '\u{2029}' || c == '\u{202F}' || c == '\u{205F}' || c
        == '\u{3000}'
}

/// The lowercase form of a text in the Unicode sense (`str::to_lowercase`).
pub uninterp spec fn lowercase(s: Seq<char>) -> Seq<char>;

/// The ASCII lowercase form of a character: uppercase ASCII letters are mapped to lowercase,
/// every other character is kept.
pub open spec fn ascii_lower_char(c: char) -> char {
    if ascii_upper(c) {
        ((c as u32) + 32) as char
    } else {
        c
    }
}

/// Every character of the text is ASCII.
pub open spec fn all_ascii(s: Seq<char>) -> bool {
    forall|i: int| 0 <= i < s.len() ==> (s[i] as u32) < 128
}

/// `str::to_lowercase`. Its documentation: the lowercase equivalent of the text according to
/// the Unicode `Lowercase` property; on an ASCII text that maps each uppercase letter to its
/// lowercase letter and keeps every other character.
#[verifier::external_body]
pub(crate) fn to_lowercase(s: &str) -> (r: String)
    ensures
        r@ == lowercase(s@),
        all_ascii(s@) ==> r@ == s@.map_values(|c: char| ascii_lower_char(c)),
{
    s.to_lowercase()
}

/// The text without its trailing white space.
pub open spec fn trim_end_ws(s: Seq<char>) -> Seq<char>
    decreases s.len(),
{
    if s.len() > 0 && whitespace(s.last()) {
        trim_end_ws(s.drop_last())
    } else {
        s
    }
}

/// The text without its leading white space.
pub open spec fn trim_start_ws(s: Seq<char>) -> Seq<char>
    decreases s.len(),
{
    if s.len() > 0 && whitespace(s[0]) {
        trim_start_ws(s.skip(1))
    } else {
        s
    }
}

/// The text without leading and trailing white space (`str::trim`).
pub open spec fn trim_spec(s: Seq<char>) -> Seq<char> {
    trim_start_ws(trim_end_ws(s))
}

/// The characters `lo..hi` of `v`, as a string.
pub fn chars_between(v: &Vec<char>, lo: usize, hi: usize) -> (r: String)
    requires
        lo <= hi <= v.len(),
    ensures
        r@ == v@.subrange(lo as int, hi as int),
{
    let mut out = String::new();
    let mut i: usize = lo;
    while i < hi
        invariant
            lo <= i <= hi <= v.len(),
            out@ == v@.subrange(lo as int, i as int),
        decreases hi - i,
    {
        push_char(&mut out, v[i]);
        proof {
            assert(out@ =~= v@.subrange(lo as int, i + 1));
        }
        i += 1;
    }
    out
}

/// Where the text of `v` without trailing white space ends.
fn trimmed_end(v: &Vec<char>) -> (hi: usize)
    ensures
        hi <= v.len(),
        trim_end_ws(v@) == v@.take(hi as int),
{
    let mut hi = v.len();
    proof {
        assert(v@.take(hi as int) =~= v@);
    }
    while hi > 0 && char_is_whitespace(v[hi - 1])
        invariant
            hi <= v.len(),
            trim_end_ws(v@) == trim_end_ws(v@.take(hi as int)),
        decreases hi,
    {
        proof {
            assert(v@.take(hi as int).drop_last() =~= v@.take(hi - 1));
        }
        hi -= 1;
    }
    hi
}

/// The text without leading and trailing white space, as `trim_spec` says.
pub fn trim(v: &Vec<char>) -> (r: String)
    ensures
        r@ == trim_spec(v@),
{
    let hi = trimmed_end(v);
    let ghost t = v@.take(hi as int);
    let mut lo: usize = 0;
    proof {
        assert(t.skip(0) =~= t);
    }
    while lo < hi && char_is_whitespace(v[lo])
        invariant
            lo <= hi <= v.len(),
            t == v@.take(hi as int),
            trim_start_ws(t) == trim_start_ws(t.skip(lo as int)),
        decreases hi - lo,
    {
        proof {
            assert(t.skip(lo as int).skip(1) =~= t.skip(lo + 1));
            assert(t.skip(lo as int)[0] == v@[lo as int]);
        }
        lo += 1;
    }
    proof {
        assert(t.skip(lo as int) =~= v@.subrange(lo as int, hi as int));
        if lo < hi {
            assert(t.skip(lo as int)[0] == v@[lo as int]);
        }
    }
    chars_between(v, lo, hi)
}

/// The words of a text: its longest runs of characters that are not white space, in order
/// (`str::split_whitespace`).
pub open spec fn words_spec(s: Seq<char>) -> Seq<Seq<char>>
    decreases s.len(),
{
    if s.len() == 0 {
        Seq::empty()
    } else {
        let w = words_spec(s.drop_last());
        let c = s.last();
        if whitespace(c) {
            w
        } else if s.len() >= 2 && !whitespace(s[s.len() - 2]) {
            w.drop_last().push(w.last().push(c))
        } else {
            w.push(seq![c])
        }
    }
}

/// The words of the text, as `words_spec` says.
pub fn split_whitespace(v: &Vec<char>) -> (r: Vec<String>)
    ensures
        strings_view(r@) == words_spec(v@),
{
    let mut out: Vec<String> = Vec::new();
    let mut cur = String::new();
    let mut i: usize = 0;
    proof {
        assert(strings_view(out@) =~= Seq::<Seq<char>>::empty());
    }
    while i < v.len()
        invariant
            i <= v.len(),
            cur@.len() > 0 <==> (i > 0 && !whitespace(v@[i - 1])),
            words_spec(v@.take(i as int)) == if cur@.len() > 0 {
                strings_view(out@).push(cur@)
            } else {
                strings_view(out@)
            },
        decreases v.len() - i,
    {
        let c = v[i];
        let ghost before_out = strings_view(out@);
        let ghost before_cur = cur@;
        proof {
            assert(v@.take(i + 1).drop_last() =~= v@.take(i as int));
            assert(v@.take(i + 1).last() == c);
            if i > 0 {
                assert(v@.take(i + 1)[i - 1] == v@[i - 1]);
            }
        }
        if char_is_whitespace(c) {
            if !cur.as_str().is_empty() {
                out.push(cur);
                cur = String::new();
                proof {
                    assert(strings_view(out@) =~= before_out.push(before_cur));
                }
            }
        } else {
            push_char(&mut cur, c);
            proof {
                if before_cur.len() > 0 {
                    assert(before_out.push(before_cur).drop_last() =~= before_out);
                    assert(before_out.push(before_cur).drop_last().push(before_cur.push(c)) =~= before_out.push(cur@));
                } else {
                    assert(cur@ =~= seq![c]);
                }
            }
        }
        i += 1;
    }
    proof {
        assert(v@.take(v@.len() as int) =~= v@);
    }
    if !cur.as_str().is_empty() {
        let ghost before_out = strings_view(out@);
        let ghost before_cur = cur@;
        out.push(cur);
        proof {
            assert(strings_view(out@) =~= before_out.push(before_cur));
        }
    }
    out
}

/// The pieces of a text between the occurrences of `sep`, empty pieces included
/// (`str::split` with a character).
pub open spec fn split_char_spec(s: Seq<char>, sep: char) -> Seq<Seq<char>>
    decreases s.len(),
{
    if s.len() == 0 {
        seq![Seq::empty()]
    } else {
        let p = split_char_spec(s.drop_last(), sep);
        if s.last() == sep {
            p.push(Seq::empty())
        } else {
            p.drop_last().push(p.last().push(s.last()))
        }
    }
}

/// The pieces of the text between the occurrences of `sep`, as `split_char_spec` says.
pub fn split_char(v: &Vec<char>, sep: char) -> (r: Vec<String>)
    ensures
        strings_view(r@) == split_char_spec(v@, sep),
{
    let mut out: Vec<String> = Vec::new();
    let mut cur = String::new();
    let mut i: usize = 0;
    proof {
        assert(v@.take(0) =~= Seq::<char>::empty());
        assert(strings_view(out@).push(cur@) =~= seq![Seq::<char>::empty()]);
    }
    while i < v.len()
        invariant
            i <= v.len(),
            split_char_spec(v@.take(i as int), sep) == strings_view(out@).push(cur@),
        decreases v.len() - i,
    {
        let c = v[i];
        let ghost before_out = strings_view(out@);
        let ghost before_cur = cur@;
        proof {
            assert(v@.take(i + 1).drop_last() =~= v@.take(i as int));
            assert(v@.take(i + 1).last() == c);
            assert(before_out.push(before_cur).drop_last() =~= before_out);
        }
        if c == sep {
            out.push(cur);
            cur = String::new();
            proof {
                assert(strings_view(out@) =~= before_out.push(before_cur));
                assert(cur@ =~= Seq::<char>::empty());
            }
        } else {
            push_char(&mut cur, c);
        }
        i += 1;
    }
    proof {
        assert(v@.take(v@.len() as int) =~= v@);
    }
    let ghost before_out = strings_view(out@);
    let ghost before_cur = cur@;
    out.push(cur);
    proof {
        assert(strings_view(out@) =~= before_out.push(before_cur));
    }
    out
}

/// `pat` occurs in `s` at position `k`.
pub open spec fn occurs_at(s: Seq<char>, pat: Seq<char>, k: int) -> bool {
    0 <= k && k + pat.len() <= s.len() && s.subrange(k, k + pat.len()) == pat
}

/// The first position from `k` on where `pat` occurs in `s`.
pub open spec fn find_from(s: Seq<char>, pat: Seq<char>, k: int) -> Option<int>
    decreases s.len() + 1 - k,
{
    if k < 0 || k + pat.len() > s.len() {
        None
    } else if occurs_at(s, pat, k) {
        Some(k)
    } else {
        find_from(s, pat, k + 1)
    }
}

pub proof fn lemma_find_from(s: Seq<char>, pat: Seq<char>, k: int)
    requires
        0 <= k,
    ensures
        find_from(s, pat, k) matches Some(j) ==> k <= j && occurs_at(s, pat, j)
            && forall|m: int| k <= m < j ==> !occurs_at(s, pat, m),
        find_from(s, pat, k) is None ==> forall|m: int| k <= m ==> !occurs_at(s, pat, m),
    decreases s.len() + 1 - k,
{
    if k >= 0 && k + pat.len() <= s.len() && !occurs_at(s, pat, k) {
        lemma_find_from(s, pat, k + 1);
    }
}

/// The first position where `pat` occurs in the characters of `v` (`str::find`).
pub fn find_text(v: &Vec<char>, pat: &Vec<char>) -> (r: Option<usize>)
    ensures
        (match r {
            Some(k) => Some(k as int),
            None => None,
        }) == find_from(v@, pat@, 0),
{
    let mut k: usize = 0;
    while pat.len() <= v.len() - k
        invariant
            k <= v.len(),
            find_from(v@, pat@, 0) == find_from(v@, pat@, k as int),
        decreases v.len() - k,
    {
        if matches_at(v, pat, k) {
            return Some(k);
        }
        proof {
            if k == v.len() {
                assert(v@.subrange(k as int, k as int) =~= pat@);
            }
        }
        k += 1;
    }
    None
}

/// The pieces of a text between the occurrences of `pat`, found from left to right without
/// overlap, empty pieces included (`str::split` with a non-empty string).
pub open spec fn split_text_spec(s: Seq<char>, pat: Seq<char>) -> Seq<Seq<char>>
    decreases s.len(),
{
    if pat.len() == 0 {
        seq![s]
    } else {
        match find_from(s, pat, 0) {
            Some(k) => {
                proof {
                    lemma_find_from(s, pat, 0);
                }
                seq![s.take(k)] + split_text_spec(s.skip(k + pat.len()), pat)
            },
            None => seq![s],
        }
    }
}

/// Text `s` with every leading occurrence of `p` removed (`str::trim_start_matches` with a
/// non-empty string).
pub open spec fn trim_start_text(s: Seq<char>, p: Seq<char>) -> Seq<char>
    decreases s.len(),
{
    if p.len() > 0 && s.len() >= p.len() && s.take(p.len() as int) == p {
        trim_start_text(s.skip(p.len() as int), p)
    } else {
        s
    }
}

/// Text `s` with every trailing `c` removed (`str::trim_end_matches` with a character).
pub open spec fn trim_end_char(s: Seq<char>, c: char) -> Seq<char>
    decreases s.len(),
{
    if s.len() > 0 && s.last() == c {
        trim_end_char(s.drop_last(), c)
    } else {
        s
    }
}

/// Text `s` with every trailing character that is not alphanumeric removed.
pub open spec fn trim_end_non_alphanumeric(s: Seq<char>) -> Seq<char>
    decreases s.len(),
{
    if s.len() > 0 && !alphanumeric(s.last()) {
        trim_end_non_alphanumeric(s.drop_last())
    } else {
        s
    }
}

/// Whether `pat` occurs in the characters of `v` at position `k`.
pub fn matches_at(v: &Vec<char>, pat: &Vec<char>, k: usize) -> (r: bool)
    ensures
        r == occurs_at(v@, pat@, k as int),
{
    if k > v.len() || pat.len() > v.len() - k {
        return false;
    }
    let mut j: usize = 0;
    while j < pat.len()
        invariant
            k + pat.len() <= v.len(),
            j <= pat.len(),
            forall|m: int| 0 <= m < j ==> v@[k + m] == pat@[m],
        decreases pat.len() - j,
    {
        if v[k + j] != pat[j] {
            proof {
                assert(v@.subrange(k as int, k + pat.len())[j as int] == v@[k + j]);
            }
            return false;
        }
        j += 1;
    }
    proof {
        assert(v@.subrange(k as int, k + pat.len()) =~= pat@);
    }
    true
}

/// The pieces of the characters of `v` between the occurrences of `pat`, as
/// `split_text_spec` says.
pub fn split_text(v: &Vec<char>, pat: &Vec<char>) -> (r: Vec<String>)
    requires
        pat.len() > 0,
    ensures
        strings_view(r@) == split_text_spec(v@, pat@),
{
    let mut out: Vec<String> = Vec::new();
    let mut cut: usize = 0;
    let mut i: usize = 0;
    proof {
        assert(v@.skip(0) =~= v@);
        assert(strings_view(out@) + split_text_spec(v@, pat@) =~= split_text_spec(v@, pat@));
    }
    while pat.len() <= v.len() - i
        invariant
            pat.len() > 0,
            cut <= i <= v.len(),
            split_text_spec(v@, pat@) == strings_view(out@) + split_text_spec(v@.skip(cut as int), pat@),
            find_from(v@.skip(cut as int), pat@, 0) == find_from(v@.skip(cut as int), pat@, i - cut),
        decreases v.len() - i,
    {
        let ghost rest = v@.skip(cut as int);
        let ghost before = strings_view(out@);
        proof {
            assert(rest.subrange(i - cut, i - cut + pat.len()) =~= v@.subrange(i as int, i + pat.len()));
        }
        if matches_at(v, pat, i) {
            let piece = chars_between(v, cut, i);
            out.push(piece);
            proof {
                lemma_find_from(rest, pat@, 0);
                assert(rest.take(i - cut) =~= v@.subrange(cut as int, i as int));
                assert(rest.skip(i - cut + pat.len()) =~= v@.skip(i + pat.len()));
                assert(strings_view(out@) =~= before.push(v@.subrange(cut as int, i as int)));
                assert(before + split_text_spec(rest, pat@) =~= strings_view(out@) + split_text_spec(
                    v@.skip(i + pat.len()),
                    pat@,
                ));
                assert(v@.skip(i + pat.len()).skip(0) =~= v@.skip(i + pat.len()));
            }
            cut = i + pat.len();
            i = cut;
        } else {
            i += 1;
        }
    }
    proof {
        let rest = v@.skip(cut as int);
        lemma_find_from(rest, pat@, 0);
        assert(split_text_spec(rest, pat@) == seq![rest]);
        assert(rest =~= v@.subrange(cut as int, v@.len() as int));
    }
    let ghost before = strings_view(out@);
    let last = chars_between(v, cut, v.len());
    out.push(last);
    proof {
        assert(strings_view(out@) =~= before + seq![v@.subrange(cut as int, v@.len() as int)]);
    }
    out
}

/// Where the characters of `v` start once every leading occurrence of `pat` is removed.
pub fn trimmed_start_text(v: &Vec<char>, pat: &Vec<char>) -> (lo: usize)
    ensures
        lo <= v.len(),
        trim_start_text(v@, pat@) == v@.skip(lo as int),
{
    let mut lo: usize = 0;
    proof {
        assert(v@.skip(0) =~= v@);
    }
    if pat.len() == 0 {
        return 0;
    }
    while matches_at(v, pat, lo)
        invariant
            pat.len() > 0,
            lo <= v.len(),
            trim_start_text(v@, pat@) == trim_start_text(v@.skip(lo as int), pat@),
        decreases v.len() - lo,
    {
        proof {
            assert(v@.skip(lo as int).take(pat.len() as int) =~= v@.subrange(lo as int, lo + pat.len()));
            assert(v@.skip(lo as int).skip(pat.len() as int) =~= v@.skip(lo + pat.len()));
        }
        lo = lo + pat.len();
    }
    proof {
        if v@.skip(lo as int).len() >= pat.len() {
            assert(v@.skip(lo as int).take(pat.len() as int) =~= v@.subrange(lo as int, lo + pat.len()));
        }
    }
    lo
}

/// Where the characters of `v` end once every trailing `c` is removed.
pub fn trimmed_end_char(v: &Vec<char>, c: char) -> (hi: usize)
    ensures
        hi <= v.len(),
        trim_end_char(v@, c) == v@.take(hi as int),
{
    let mut hi = v.len();
    proof {
        assert(v@.take(hi as int) =~= v@);
    }
    while hi > 0 && v[hi - 1] == c
        invariant
            hi <= v.len(),
            trim_end_char(v@, c) == trim_end_char(v@.take(hi as int), c),
        decreases hi,
    {
        proof {
            assert(v@.take(hi as int).drop_last() =~= v@.take(hi - 1));
        }
        hi -= 1;
    }
    hi
}

/// Where the characters of `v` end once every trailing character that is not alphanumeric is
/// removed.
pub fn trimmed_end_non_alphanumeric(v: &Vec<char>) -> (hi: usize)
    ensures
        hi <= v.len(),
        trim_end_non_alphanumeric(v@) == v@.take(hi as int),
{
    let mut hi = v.len();
    proof {
        assert(v@.take(hi as int) =~= v@);
    }
    while hi > 0 && !char_is_alphanumeric(v[hi - 1])
        invariant
            hi <= v.len(),
            trim_end_non_alphanumeric(v@) == trim_end_non_alphanumeric(v@.take(hi as int)),
        decreases hi,
    {
        proof {
            assert(v@.take(hi as int).drop_last() =~= v@.take(hi - 1));
        }
        hi -= 1;
    }
    hi
}

/// The strings joined, with `sep` between two neighbours (`[String]::join`).
pub fn join_strings(parts: &Vec<String>, sep: char) -> (r: String)
    ensures
        r@ == join(strings_view(parts@), seq![sep]),
{
    let ghost pv = strings_view(parts@);
    let mut out = String::new();
    let mut i: usize = 0;
    while i < parts.len()
        invariant
            i <= parts.len(),
            pv == strings_view(parts@),
            out@ == join(pv.take(i as int), seq![sep]),
        decreases parts.len() - i,
    {
        if i > 0 {
            push_char(&mut out, sep);
        }
        push_str(&mut out, parts[i].as_str());
        proof {
            assert(pv.take(i + 1).drop_last() =~= pv.take(i as int));
            assert(pv.take(i + 1).last() == parts@[i as int]@);
            if i == 0 {
                assert(pv.take(1)[0] == parts@[0]@);
            }
        }
        i += 1;
    }
    proof {
        assert(pv.take(parts@.len() as int) =~= pv);
    }
    out
}

/// The characters `lo..hi` of `v`.
pub fn chars_sub(v: &Vec<char>, lo: usize, hi: usize) -> (r: Vec<char>)
    requires
        lo <= hi <= v.len(),
    ensures
        r@ == v@.subrange(lo as int, hi as int),
{
    let mut out: Vec<char> = Vec::new();
    let mut i: usize = lo;
    while i < hi
        invariant
            lo <= i <= hi <= v.len(),
            out@ == v@.subrange(lo as int, i as int),
        decreases hi - i,
    {
        out.push(v[i]);
        proof {
            assert(out@ =~= v@.subrange(lo as int, i + 1));
        }
        i += 1;
    }
    out
}

} // verus!
