//! Character-level helpers over `str` and `String`, with the few calls into
//! `std` that vstd gives no specification for.
use vstd::prelude::*;

verus! {

broadcast use vstd::string::group_string_axioms;

/// The characters of `s`, in order.
pub fn chars_of(s: &str) -> (v: Vec<char>)
    ensures
        v@ == s@,
{
    let mut v: Vec<char> = Vec::new();
    for c in it: s.chars()
        invariant
            v@ == it.seq().take(it.index() as int),
            it.seq() == s@,
    {
        v.push(c);
    }
    v
}

/// Whether `c` has the Unicode `White_Space` property (what
/// `char::is_whitespace` tests).
pub open spec fn is_whitespace(c: char) -> bool {
    ||| c == '\t'
    ||| c == '\n'
    ||| c == '\u{0B}'
    ||| c == '\u{0C}'
    ||| c == '\r'
    ||| c == ' '
    ||| c == '\u{85}'
    ||| c == '\u{A0}'
    ||| c == '\u{1680}'
    ||| ('\u{2000}' <= c && c <= '\u{200A}')
    ||| c == '\u{2028}'
    ||| c == '\u{2029}'
    ||| c == '\u{202F}'
    ||| c == '\u{205F}'
    ||| c == '\u{3000}'
}

/// Executable form of [`is_whitespace`].
pub fn is_whitespace_char(c: char) -> (b: bool)
    ensures
        b == is_whitespace(c),
{
    c == '\t' || c == '\n' || c == '\u{0B}' || c == '\u{0C}' || c == '\r' || c == ' '
        || c == '\u{85}' || c == '\u{A0}' || c == '\u{1680}' || ('\u{2000}' <= c && c
        <= '\u{200A}') || c == '\u{2028}' || c == '\u{2029}' || c == '\u{202F}' || c
        == '\u{205F}' || c == '\u{3000}'
}

/// The `String` views of a sequence of strings.
pub open spec fn strings_view(v: Seq<String>) -> Seq<Seq<char>> {
    v.map_values(|s: String| s@)
}

/// The maximal non-empty runs of `s` without a separator, in order, where the
/// run `cur` has already been read.
pub open spec fn fields_from<A>(s: Seq<A>, is_sep: spec_fn(A) -> bool, cur: Seq<A>) -> Seq<Seq<A>>
    decreases s.len(),
{
    if s.len() == 0 {
        if cur.len() == 0 {
            Seq::empty()
        } else {
            seq![cur]
        }
    } else if is_sep(s[0]) {
        (if cur.len() == 0 {
            Seq::empty()
        } else {
            seq![cur]
        }) + fields_from(s.drop_first(), is_sep, Seq::empty())
    } else {
        fields_from(s.drop_first(), is_sep, cur.push(s[0]))
    }
}

/// The maximal non-empty runs of `s` without a separator, in order.
pub open spec fn fields<A>(s: Seq<A>, is_sep: spec_fn(A) -> bool) -> Seq<Seq<A>> {
    fields_from(s, is_sep, Seq::empty())
}

/// The whitespace-separated words of `s` (what `str::split_whitespace` yields).
pub open spec fn words(s: Seq<char>) -> Seq<Seq<char>> {
    fields(s, |c: char| is_whitespace(c))
}

/// `s` without its leading whitespace.
pub open spec fn trim_start(s: Seq<char>) -> Seq<char>
    decreases s.len(),
{
    if s.len() > 0 && is_whitespace(s[0]) {
        trim_start(s.drop_first())
    } else {
        s
    }
}

/// `s` without its trailing whitespace.
pub open spec fn trim_end(s: Seq<char>) -> Seq<char>
    decreases s.len(),
{
    if s.len() > 0 && is_whitespace(s.last()) {
        trim_end(s.drop_last())
    } else {
        s
    }
}

/// `s` without leading and trailing whitespace (what `str::trim` yields).
pub open spec fn trim(s: Seq<char>) -> Seq<char> {
    trim_end(trim_start(s))
}

/// A line as `str::lines` gives it back: without a `\r` that stood right
/// before its `\n`.
pub open spec fn strip_cr(line: Seq<char>) -> Seq<char> {
    if line.len() > 0 && line.last() == '\r' {
        line.drop_last()
    } else {
        line
    }
}

/// The lines of `s` where the unfinished line `cur` has already been read.
pub open spec fn lines_from(s: Seq<char>, cur: Seq<char>) -> Seq<Seq<char>>
    decreases s.len(),
{
    if s.len() == 0 {
        if cur.len() == 0 {
            Seq::empty()
        } else {
            seq![cur]
        }
    } else if s[0] == '\n' {
        seq![strip_cr(cur)] + lines_from(s.drop_first(), Seq::empty())
    } else {
        lines_from(s.drop_first(), cur.push(s[0]))
    }
}

/// The lines of `s` (what `str::lines` yields): split at each `\n`, a `\r`
/// right before a `\n` dropped, and no empty line after a final `\n`.
pub open spec fn lines(s: Seq<char>) -> Seq<Seq<char>> {
    lines_from(s, Seq::empty())
}

/// At most the first `n` characters of `s` (what `chars().take(n)` yields).
pub open spec fn take_chars(s: Seq<char>, n: nat) -> Seq<char> {
    if n < s.len() {
        s.take(n as int)
    } else {
        s
    }
}

/// Appends `c` to `s`.
///
/// Calls `String::push`, which appends the given `char` to the end of the
/// string; the contract states exactly that.
#[verifier::external_body]
pub fn push_char(s: &mut String, c: char)
    ensures
        final(s)@ == old(s)@.push(c),
{
    s.push(c);
}

/// The `String` holding the characters of `v`.
pub fn string_from_chars(v: &[char]) -> (s: String)
    ensures
        s@ == v@,
{
    let mut s = String::new();
    let mut i: usize = 0;
    while i < v.len()
        invariant
            i <= v.len(),
            s@ == v@.take(i as int),
        decreases v.len() - i,
    {
        push_char(&mut s, v[i]);
        assert(v@.take(i + 1) =~= v@.take(i as int).push(v@[i as int]));
        i = i + 1;
    }
    assert(v@.take(v.len() as int) =~= v@);
    s
}

/// Appends the characters of `v` to `s`.
pub fn push_chars(s: &mut String, v: &[char])
    ensures
        final(s)@ == old(s)@ + v@,
{
    let mut i: usize = 0;
    while i < v.len()
        invariant
            i <= v.len(),
            s@ == old(s)@ + v@.take(i as int),
        decreases v.len() - i,
    {
        push_char(s, v[i]);
        assert(v@.take(i + 1) =~= v@.take(i as int).push(v@[i as int]));
        i = i + 1;
    }
    assert(v@.take(v.len() as int) =~= v@);
}

/// Appends the characters of `t` to `s`.
pub fn push_str(s: &mut String, t: &str)
    ensures
        final(s)@ == old(s)@ + t@,
{
    let cs = chars_of(t);
    push_chars(s, cs.as_slice());
}

/// The whitespace-separated words of `s`, in order.
pub fn split_whitespace(s: &[char]) -> (out: Vec<Vec<char>>)
    ensures
        out@.map_values(|w: Vec<char>| w@) == words(s@),
{
    let ghost sep = |c: char| is_whitespace(c);
    let mut out: Vec<Vec<char>> = Vec::new();
    let mut cur: Vec<char> = Vec::new();
    let mut i: usize = 0;
    assert(s@.skip(0) =~= s@);
    while i < s.len()
        invariant
            i <= s.len(),
            sep == (|c: char| is_whitespace(c)),
            words(s@) == out@.map_values(|w: Vec<char>| w@) + fields_from(
                s@.skip(i as int),
                sep,
                cur@,
            ),
        decreases s.len() - i,
    {
        let ghost before = out@.map_values(|w: Vec<char>| w@);
        let ghost rest = s@.skip(i + 1);
        assert(s@.skip(i as int).drop_first() =~= rest);
        assert(s@.skip(i as int)[0] == s@[i as int]);
        assert(sep(s@[i as int]) == is_whitespace(s@[i as int]));
        if is_whitespace_char(s[i]) {
            if cur.len() > 0 {
                let ghost cw = cur@;
                assert(fields_from(s@.skip(i as int), sep, cw) == seq![cw] + fields_from(rest, sep, Seq::empty()));
                out.push(cur);
                cur = Vec::new();
                assert(out@.map_values(|w: Vec<char>| w@) =~= before + seq![cw]);
                assert(before + (seq![cw] + fields_from(rest, sep, Seq::empty())) =~= before + seq![cw] + fields_from(rest, sep, cur@));
            } else {
                assert(fields_from(s@.skip(i as int), sep, cur@) =~= fields_from(rest, sep, Seq::empty()));
                assert(cur@ =~= Seq::<char>::empty());
            }
        } else {
            assert(fields_from(s@.skip(i as int), sep, cur@) == fields_from(rest, sep, cur@.push(s@[i as int])));
            cur.push(s[i]);
        }
        i = i + 1;
    }
    if cur.len() > 0 {
        let ghost before = out@.map_values(|w: Vec<char>| w@);
        let ghost cw = cur@;
        out.push(cur);
        assert(out@.map_values(|w: Vec<char>| w@) =~= before + seq![cw]);
    } else {
        assert(out@.map_values(|w: Vec<char>| w@) =~= out@.map_values(|w: Vec<char>| w@) + Seq::<Seq<char>>::empty());
    }
    out
}

/// Views of strings follow a `push`.
pub proof fn lemma_strings_view_push(v: Seq<String>, s: String)
    ensures
        strings_view(v.push(s)) == strings_view(v).push(s@),
{
    assert(strings_view(v.push(s)) =~= strings_view(v).push(s@));
}

/// Views of strings follow an `update`.
pub proof fn lemma_strings_view_update(v: Seq<String>, i: int, s: String)
    requires
        0 <= i < v.len(),
    ensures
        strings_view(v.update(i, s)) == strings_view(v).update(i, s@),
{
    assert(strings_view(v.update(i, s)) =~= strings_view(v).update(i, s@));
}

/// What `String::from_utf8_lossy` makes of `bytes`: their UTF-8 decoding,
/// with each invalid sequence replaced by `U+FFFD`.
pub uninterp spec fn utf8_lossy(bytes: Seq<u8>) -> Seq<char>;

/// Decodes `bytes` as UTF-8, replacing invalid sequences.
///
/// Calls `String::from_utf8_lossy` and takes the result as an owned string.
/// The contract names the result [`utf8_lossy`] of the bytes, and states the
/// one case that its documentation spells out: valid UTF-8 comes back
/// unchanged. How invalid sequences are replaced is left unsaid.
#[verifier::external_body]
pub fn from_utf8_lossy(bytes: &[u8]) -> (s: String)
    ensures
        s@ == utf8_lossy(bytes@),
        vstd::utf8::valid_utf8(bytes@) ==> s@ == vstd::utf8::decode_utf8(bytes@),
{
    String::from_utf8_lossy(bytes).into_owned()
}

/// Whether `a` and `b` hold the same characters.
pub fn str_eq(a: &str, b: &str) -> (eq: bool)
    ensures
        eq == (a@ == b@),
{
    let ac = chars_of(a);
    let bc = chars_of(b);
    if ac.len() != bc.len() {
        return false;
    }
    let mut i: usize = 0;
    while i < ac.len()
        invariant
            i <= ac.len(),
            ac.len() == bc.len(),
            ac@ == a@,
            bc@ == b@,
            forall|j: int| 0 <= j < i ==> ac@[j] == bc@[j],
        decreases ac.len() - i,
    {
        if ac[i] != bc[i] {
            return false;
        }
        i = i + 1;
    }
    assert(ac@ =~= bc@);
    true
}

/// `s` without leading and trailing whitespace (see [`trim`]).
pub fn trim_chars(s: &[char]) -> (t: Vec<char>)
    ensures
        t@ == trim(s@),
{
    let mut start: usize = 0;
    assert(s@.skip(0) =~= s@);
    while start < s.len() && is_whitespace_char(s[start])
        invariant
            start <= s.len(),
            trim_start(s@) == trim_start(s@.skip(start as int)),
        decreases s.len() - start,
    {
        assert(s@.skip(start as int).drop_first() =~= s@.skip(start + 1));
        start = start + 1;
    }
    let ghost front = s@.skip(start as int);
    assert(trim_start(s@) == front);
    let mut end: usize = s.len();
    assert(front.take(front.len() as int) =~= front);
    while end > start && is_whitespace_char(s[end - 1])
        invariant
            start <= end <= s.len(),
            front == s@.skip(start as int),
            trim_end(front) == trim_end(s@.subrange(start as int, end as int)),
        decreases end - start,
    {
        assert(s@.subrange(start as int, end as int).drop_last() =~= s@.subrange(
            start as int,
            end - 1,
        ));
        end = end - 1;
    }
    let mut t: Vec<char> = Vec::new();
    let mut k: usize = start;
    while k < end
        invariant
            start <= k <= end,
            end <= s.len(),
            t@ == s@.subrange(start as int, k as int),
        decreases end - k,
    {
        t.push(s[k]);
        assert(t@ =~= s@.subrange(start as int, k + 1));
        k = k + 1;
    }
    t
}

/// At most the first `n` characters of `s` (see [`take_chars`]).
pub fn take_prefix(s: &[char], n: usize) -> (t: Vec<char>)
    ensures
        t@ == take_chars(s@, n as nat),
{
    let end = if n < s.len() {
        n
    } else {
        s.len()
    };
    let mut t: Vec<char> = Vec::new();
    let mut k: usize = 0;
    while k < end
        invariant
            k <= end,
            end <= s.len(),
            end == (if n < s.len() { n as int } else { s.len() as int }),
            t@ == s@.take(k as int),
        decreases end - k,
    {
        t.push(s[k]);
        assert(t@ =~= s@.take(k + 1));
        k = k + 1;
    }
    assert(s@.take(s.len() as int) =~= s@);
    t
}

/// The lines of `s` (see [`lines`]).
pub fn split_lines(s: &[char]) -> (out: Vec<Vec<char>>)
    ensures
        out@.map_values(|l: Vec<char>| l@) == lines(s@),
{
    let mut out: Vec<Vec<char>> = Vec::new();
    let mut cur: Vec<char> = Vec::new();
    let mut i: usize = 0;
    assert(s@.skip(0) =~= s@);
    while i < s.len()
        invariant
            i <= s.len(),
            lines(s@) == out@.map_values(|l: Vec<char>| l@) + lines_from(s@.skip(i as int), cur@),
        decreases s.len() - i,
    {
        let ghost before = out@.map_values(|l: Vec<char>| l@);
        let ghost rest = s@.skip(i + 1);
        assert(s@.skip(i as int).drop_first() =~= rest);
        assert(s@.skip(i as int)[0] == s@[i as int]);
        if s[i] == '\n' {
            let ghost cw = cur@;
            if cur.len() > 0 && cur[cur.len() - 1] == '\r' {
                cur.pop();
            }
            assert(cur@ =~= strip_cr(cw));
            assert(lines_from(s@.skip(i as int), cw) == seq![strip_cr(cw)] + lines_from(
                rest,
                Seq::empty(),
            ));
            let ghost stripped = cur@;
            out.push(cur);
            cur = Vec::new();
            assert(out@.map_values(|l: Vec<char>| l@) =~= before + seq![stripped]);
            assert(before + (seq![stripped] + lines_from(rest, Seq::empty())) =~= before
                + seq![stripped] + lines_from(rest, cur@));
        } else {
            assert(lines_from(s@.skip(i as int), cur@) == lines_from(rest, cur@.push(s@[i as int])));
            cur.push(s[i]);
        }
        i = i + 1;
    }
    if cur.len() > 0 {
        let ghost before = out@.map_values(|l: Vec<char>| l@);
        let ghost cw = cur@;
        out.push(cur);
        assert(out@.map_values(|l: Vec<char>| l@) =~= before + seq![cw]);
    } else {
        assert(out@.map_values(|l: Vec<char>| l@) =~= out@.map_values(|l: Vec<char>| l@) + Seq::<
            Seq<char>,
        >::empty());
    }
    out
}

/// No element of `s` is a separator.
pub open spec fn free_of<A>(s: Seq<A>, is_sep: spec_fn(A) -> bool) -> bool {
    forall|i: int| 0 <= i < s.len() ==> !is_sep(#[trigger] s[i])
}

/// Every field is non-empty and holds no separator.
pub proof fn lemma_fields_from<A>(s: Seq<A>, is_sep: spec_fn(A) -> bool, cur: Seq<A>)
    requires
        free_of(cur, is_sep),
    ensures
        forall|k: int|
            0 <= k < fields_from(s, is_sep, cur).len() ==> {
                &&& (#[trigger] fields_from(s, is_sep, cur)[k]).len() > 0
                &&& free_of(fields_from(s, is_sep, cur)[k], is_sep)
            },
    decreases s.len(),
{
    if s.len() > 0 {
        if is_sep(s[0]) {
            lemma_fields_from(s.drop_first(), is_sep, Seq::empty());
            let r = fields_from(s.drop_first(), is_sep, Seq::empty());
            let f = fields_from(s, is_sep, cur);
            if cur.len() == 0 {
                assert(f =~= r);
            } else {
                assert(f =~= seq![cur] + r);
                assert forall|k: int| 0 <= k < f.len() implies (#[trigger] f[k]).len() > 0 && free_of(
                    f[k],
                    is_sep,
                ) by {
                    if k > 0 {
                        assert(f[k] == r[k - 1]);
                    }
                }
            }
        } else {
            assert(free_of(cur.push(s[0]), is_sep)) by {
                assert forall|i: int| 0 <= i < cur.push(s[0]).len() implies !is_sep(
                    #[trigger] cur.push(s[0])[i],
                ) by {
                    if i < cur.len() {
                        assert(cur.push(s[0])[i] == cur[i]);
                    }
                }
            }
            lemma_fields_from(s.drop_first(), is_sep, cur.push(s[0]));
            assert(fields_from(s, is_sep, cur) == fields_from(s.drop_first(), is_sep, cur.push(s[0])));
        }
    } else if cur.len() > 0 {
        let f = fields_from(s, is_sep, cur);
        assert(f =~= seq![cur]);
        assert(f[0] == cur);
    }
}

/// Every word is non-empty and holds no whitespace.
pub proof fn lemma_words(s: Seq<char>)
    ensures
        forall|k: int|
            0 <= k < words(s).len() ==> {
                &&& (#[trigger] words(s)[k]).len() > 0
                &&& free_of(words(s)[k], |c: char| is_whitespace(c))
            },
{
    lemma_fields_from(s, |c: char| is_whitespace(c), Seq::empty());
}

proof fn lemma_trim_start(s: Seq<char>)
    ensures
        trim_start(s).len() > 0 ==> !is_whitespace(trim_start(s)[0]),
        trim_start(s).len() <= s.len(),
    decreases s.len(),
{
    if s.len() > 0 && is_whitespace(s[0]) {
        lemma_trim_start(s.drop_first());
    }
}

proof fn lemma_trim_end(s: Seq<char>)
    ensures
        trim_end(s).len() > 0 ==> !is_whitespace(trim_end(s).last()),
        trim_end(s).len() <= s.len(),
        trim_end(s) == s.take(trim_end(s).len() as int),
    decreases s.len(),
{
    if s.len() > 0 && is_whitespace(s.last()) {
        lemma_trim_end(s.drop_last());
        assert(s.drop_last().take(trim_end(s).len() as int) =~= s.take(trim_end(s).len() as int));
    } else {
        assert(s.take(s.len() as int) =~= s);
    }
}

/// A trimmed text neither starts nor ends with whitespace, and is no longer
/// than the text.
pub proof fn lemma_trim(s: Seq<char>)
    ensures
        trim(s).len() > 0 ==> !is_whitespace(trim(s)[0]) && !is_whitespace(trim(s).last()),
        trim(s).len() <= s.len(),
{
    lemma_trim_start(s);
    lemma_trim_end(trim_start(s));
    if trim(s).len() > 0 {
        assert(trim(s)[0] == trim_start(s)[0]);
    }
}

/// `s` without trailing whitespace (see [`trim_end`]).
pub fn trim_end_chars(s: &[char]) -> (t: Vec<char>)
    ensures
        t@ == trim_end(s@),
{
    let mut end: usize = s.len();
    assert(s@.take(s.len() as int) =~= s@);
    while end > 0 && is_whitespace_char(s[end - 1])
        invariant
            end <= s.len(),
            trim_end(s@) == trim_end(s@.take(end as int)),
        decreases end,
    {
        assert(s@.take(end as int).drop_last() =~= s@.take(end - 1));
        end = end - 1;
    }
    let mut t: Vec<char> = Vec::new();
    let mut k: usize = 0;
    while k < end
        invariant
            k <= end,
            end <= s.len(),
            t@ == s@.take(k as int),
        decreases end - k,
    {
        t.push(s[k]);
        assert(t@ =~= s@.take(k + 1));
        k = k + 1;
    }
    t
}

/// The elements of `ws` with `sep` between each two neighbours.
pub open spec fn join_with(ws: Seq<Seq<char>>, sep: char) -> Seq<char>
    decreases ws.len(),
{
    if ws.len() == 0 {
        Seq::empty()
    } else if ws.len() == 1 {
        ws[0]
    } else {
        ws[0] + seq![sep] + join_with(ws.drop_first(), sep)
    }
}

/// Joining two non-empty runs puts one separator between them.
pub proof fn lemma_join_concat(a: Seq<Seq<char>>, b: Seq<Seq<char>>, sep: char)
    requires
        a.len() > 0,
        b.len() > 0,
    ensures
        join_with(a + b, sep) == join_with(a, sep) + seq![sep] + join_with(b, sep),
    decreases a.len(),
{
    if a.len() == 1 {
        assert((a + b).drop_first() =~= b);
    } else {
        lemma_join_concat(a.drop_first(), b, sep);
        assert((a + b).drop_first() =~= a.drop_first() + b);
        assert(join_with(a + b, sep) =~= join_with(a, sep) + seq![sep] + join_with(b, sep));
    }
}

/// `s` holds no `c`.
pub open spec fn lacks(s: Seq<char>, c: char) -> bool {
    forall|i: int| 0 <= i < s.len() ==> s[i] != c
}

proof fn lemma_lines_from_rejoin(s: Seq<char>, cur: Seq<char>)
    requires
        lacks(cur, '\r'),
        lacks(cur, '\n'),
        lacks(s, '\r'),
        s.len() == 0 || s.last() != '\n',
    ensures
        join_with(lines_from(s, cur), '\n') == cur + s,
    decreases s.len(),
{
    let rest = s.drop_first();
    if s.len() == 0 {
        if cur.len() > 0 {
            assert(lines_from(s, cur) =~= seq![cur]);
        }
        assert(cur + s =~= cur);
    } else if s[0] == '\n' {
        assert(rest.len() > 0);
        assert(rest.last() == s.last());
        lemma_lines_from_rejoin(rest, Seq::empty());
        let tail = lines_from(rest, Seq::empty());
        assert(Seq::<char>::empty() + rest =~= rest);
        assert(tail.len() > 0);
        assert(strip_cr(cur) == cur) by {
            if cur.len() > 0 {
                assert(cur.last() != '\r');
            }
        }
        lemma_join_concat(seq![cur], tail, '\n');
        assert(seq![cur] + tail =~= lines_from(s, cur));
        assert(cur + s =~= cur + seq!['\n'] + rest);
    } else {
        assert(lacks(cur.push(s[0]), '\r'));
        assert(lacks(cur.push(s[0]), '\n'));
        if rest.len() > 0 {
            assert(rest.last() == s.last());
        }
        lemma_lines_from_rejoin(rest, cur.push(s[0]));
        assert(cur.push(s[0]) + rest =~= cur + s);
    }
}

/// Splitting into lines loses nothing of a text without carriage returns
/// that does not end with a line break: its lines joined by line breaks give
/// it back.
pub proof fn law_lines_rejoin(s: Seq<char>)
    requires
        lacks(s, '\r'),
        s.len() == 0 || s.last() != '\n',
    ensures
        join_with(lines(s), '\n') == s,
{
    lemma_lines_from_rejoin(s, Seq::empty());
    assert(Seq::<char>::empty() + s =~= s);
}

/// The field `cur` already read, as a sequence of at most one field.
pub open spec fn pending_field<A>(cur: Seq<A>) -> Seq<Seq<A>> {
    if cur.len() == 0 {
        Seq::empty()
    } else {
        seq![cur]
    }
}

proof fn lemma_fields_from_split<A>(a: Seq<A>, x: A, b: Seq<A>, is_sep: spec_fn(A) -> bool, cur: Seq<A>)
    requires
        is_sep(x),
    ensures
        fields_from(a + seq![x] + b, is_sep, cur) == fields_from(a, is_sep, cur) + fields(b, is_sep),
    decreases a.len(),
{
    let s = a + seq![x] + b;
    if a.len() == 0 {
        assert(s.drop_first() =~= b);
        assert(s[0] == x);
        if cur.len() == 0 {
            assert(fields_from(s, is_sep, cur) =~= fields_from(a, is_sep, cur) + fields(b, is_sep));
        } else {
            assert(fields_from(s, is_sep, cur) =~= fields_from(a, is_sep, cur) + fields(b, is_sep));
        }
    } else {
        assert(s.drop_first() =~= a.drop_first() + seq![x] + b);
        assert(s[0] == a[0]);
        if is_sep(a[0]) {
            lemma_fields_from_split(a.drop_first(), x, b, is_sep, Seq::empty());
            assert(fields_from(s, is_sep, cur) =~= fields_from(a, is_sep, cur) + fields(b, is_sep));
        } else {
            lemma_fields_from_split(a.drop_first(), x, b, is_sep, cur.push(a[0]));
        }
    }
}

/// Splitting at a separator splits the fields: the fields of `a`, a
/// separator, then `b` are the fields of `a`, then those of `b`.
pub proof fn law_fields_split<A>(a: Seq<A>, x: A, b: Seq<A>, is_sep: spec_fn(A) -> bool)
    requires
        is_sep(x),
    ensures
        fields(a + seq![x] + b, is_sep) == fields(a, is_sep) + fields(b, is_sep),
{
    lemma_fields_from_split(a, x, b, is_sep, Seq::empty());
}

proof fn lemma_fields_from_single<A>(p: Seq<A>, is_sep: spec_fn(A) -> bool, cur: Seq<A>)
    requires
        free_of(p, is_sep),
    ensures
        fields_from(p, is_sep, cur) == pending_field(cur + p),
    decreases p.len(),
{
    if p.len() == 0 {
        assert(cur + p =~= cur);
    } else {
        assert(!is_sep(p[0]));
        assert(free_of(p.drop_first(), is_sep)) by {
            assert forall|i: int| 0 <= i < p.drop_first().len() implies !is_sep(
                #[trigger] p.drop_first()[i],
            ) by {
                assert(p.drop_first()[i] == p[i + 1]);
            }
        }
        lemma_fields_from_single(p.drop_first(), is_sep, cur.push(p[0]));
        assert(cur.push(p[0]) + p.drop_first() =~= cur + p);
    }
}

/// A non-empty run without separators is one field.
pub proof fn law_fields_single<A>(p: Seq<A>, is_sep: spec_fn(A) -> bool)
    requires
        p.len() > 0,
        free_of(p, is_sep),
    ensures
        fields(p, is_sep) == seq![p],
{
    lemma_fields_from_single(p, is_sep, Seq::empty());
    assert(Seq::<A>::empty() + p =~= p);
}

/// `s` without its whitespace characters.
pub open spec fn without_whitespace(s: Seq<char>) -> Seq<char>
    decreases s.len(),
{
    if s.len() == 0 {
        Seq::empty()
    } else if is_whitespace(s[0]) {
        without_whitespace(s.drop_first())
    } else {
        seq![s[0]] + without_whitespace(s.drop_first())
    }
}

/// The words concatenated.
pub open spec fn concat_words(ws: Seq<Seq<char>>) -> Seq<char>
    decreases ws.len(),
{
    if ws.len() == 0 {
        Seq::empty()
    } else {
        ws[0] + concat_words(ws.drop_first())
    }
}

proof fn lemma_concat_words_push_front(w: Seq<char>, ws: Seq<Seq<char>>)
    ensures
        concat_words(seq![w] + ws) == w + concat_words(ws),
{
    assert((seq![w] + ws).drop_first() =~= ws);
}

proof fn lemma_words_cover(s: Seq<char>, cur: Seq<char>)
    ensures
        concat_words(fields_from(s, |c: char| is_whitespace(c), cur)) == cur + without_whitespace(s),
    decreases s.len(),
{
    let sep = |c: char| is_whitespace(c);
    if s.len() == 0 {
        if cur.len() > 0 {
            assert(concat_words(seq![cur]) == cur + concat_words(Seq::empty())) by {
                lemma_concat_words_push_front(cur, Seq::empty());
                assert(seq![cur] + Seq::<Seq<char>>::empty() =~= seq![cur]);
            }
        }
        assert(cur + without_whitespace(s) =~= cur);
    } else if is_whitespace(s[0]) {
        lemma_words_cover(s.drop_first(), Seq::empty());
        let rest = fields_from(s.drop_first(), sep, Seq::empty());
        if cur.len() > 0 {
            lemma_concat_words_push_front(cur, rest);
        } else {
            assert(Seq::<Seq<char>>::empty() + rest =~= rest);
        }
        assert(Seq::<char>::empty() + without_whitespace(s.drop_first()) =~= without_whitespace(
            s.drop_first(),
        ));
    } else {
        lemma_words_cover(s.drop_first(), cur.push(s[0]));
        assert(cur.push(s[0]) + without_whitespace(s.drop_first()) =~= cur + (seq![s[0]]
            + without_whitespace(s.drop_first())));
    }
}

/// Splitting into words loses nothing but whitespace: the words, run
/// together, are the text without its whitespace.
pub proof fn law_words_cover(s: Seq<char>)
    ensures
        concat_words(words(s)) == without_whitespace(s),
{
    lemma_words_cover(s, Seq::empty());
    assert(Seq::<char>::empty() + without_whitespace(s) =~= without_whitespace(s));
}

/// Every character of `s` is whitespace.
pub open spec fn all_whitespace(s: Seq<char>) -> bool {
    forall|i: int| 0 <= i < s.len() ==> is_whitespace(#[trigger] s[i])
}

proof fn lemma_trim_start_cut(s: Seq<char>) -> (i: int)
    ensures
        0 <= i <= s.len(),
        trim_start(s) == s.skip(i),
        all_whitespace(s.take(i)),
    decreases s.len(),
{
    if s.len() > 0 && is_whitespace(s[0]) {
        let k = lemma_trim_start_cut(s.drop_first());
        assert(s.drop_first().skip(k) =~= s.skip(k + 1));
        assert forall|m: int| 0 <= m < s.take(k + 1).len() implies is_whitespace(
            #[trigger] s.take(k + 1)[m],
        ) by {
            if m > 0 {
                assert(s.take(k + 1)[m] == s.drop_first().take(k)[m - 1]);
            }
        }
        k + 1
    } else {
        assert(s.skip(0) =~= s);
        0
    }
}

proof fn lemma_trim_end_cut(s: Seq<char>) -> (j: int)
    ensures
        0 <= j <= s.len(),
        trim_end(s) == s.take(j),
        all_whitespace(s.skip(j)),
    decreases s.len(),
{
    if s.len() > 0 && is_whitespace(s.last()) {
        let k = lemma_trim_end_cut(s.drop_last());
        assert(s.drop_last().take(k) =~= s.take(k));
        assert forall|m: int| 0 <= m < s.skip(k).len() implies is_whitespace(#[trigger] s.skip(k)[m]) by {
            if k + m < s.len() - 1 {
                assert(s.skip(k)[m] == s.drop_last().skip(k)[m]);
            }
        }
        k
    } else {
        assert(s.take(s.len() as int) =~= s);
        s.len() as int
    }
}

/// Trimming removes only whitespace, and only at the ends: the trimmed text
/// is a run of the text with nothing but whitespace before and after it, and
/// it neither starts nor ends with whitespace.
pub proof fn law_trim(s: Seq<char>)
    ensures
        exists|i: int, j: int|
            0 <= i <= j <= s.len() && trim(s) == s.subrange(i, j) && all_whitespace(s.take(i))
                && all_whitespace(s.skip(j)),
        trim(s).len() > 0 ==> !is_whitespace(trim(s)[0]) && !is_whitespace(trim(s).last()),
{
    lemma_trim(s);
    let i = lemma_trim_start_cut(s);
    let t = s.skip(i);
    let j = lemma_trim_end_cut(t);
    assert(t.take(j) =~= s.subrange(i, i + j));
    assert(t.skip(j) =~= s.skip(i + j));
    assert(0 <= i <= i + j <= s.len() && trim(s) == s.subrange(i, i + j) && all_whitespace(s.take(i))
        && all_whitespace(s.skip(i + j)));
}

/// Taking at most `n` characters keeps a prefix of length `n`, or the whole
/// text where it is shorter.
pub proof fn law_take_chars(s: Seq<char>, n: nat)
    ensures
        take_chars(s, n).len() == (if n < s.len() { n } else { s.len() }),
        forall|i: int| 0 <= i < take_chars(s, n).len() ==> #[trigger] take_chars(s, n)[i] == s[i],
{
}

proof fn lemma_lines_from_split(a: Seq<char>, b: Seq<char>, cur: Seq<char>)
    requires
        forall|i: int| 0 <= i < a.len() ==> a[i] != '\n',
    ensures
        lines_from(a + seq!['\n'] + b, cur) == seq![strip_cr(cur + a)] + lines(b),
    decreases a.len(),
{
    let s = a + seq!['\n'] + b;
    if a.len() == 0 {
        assert(s.drop_first() =~= b);
        assert(s[0] == '\n');
        assert(cur + a =~= cur);
    } else {
        assert(s[0] == a[0]);
        assert(s.drop_first() =~= a.drop_first() + seq!['\n'] + b);
        lemma_lines_from_split(a.drop_first(), b, cur.push(a[0]));
        assert(cur.push(a[0]) + a.drop_first() =~= cur + a);
    }
}

/// Lines are split at each line break: a text made of a run without line
/// breaks, a line break, and a rest has that run (without a `\r` right
/// before the break) as its first line, then the lines of the rest. A `\r`
/// is dropped only right before a break.
pub proof fn law_lines_split(a: Seq<char>, b: Seq<char>)
    requires
        forall|i: int| 0 <= i < a.len() ==> a[i] != '\n',
    ensures
        lines(a + seq!['\n'] + b) == seq![strip_cr(a)] + lines(b),
        strip_cr(a.push('\r')) == a,
        (a.len() == 0 || a.last() != '\r') ==> strip_cr(a) == a,
        (a.len() > 0 && forall|i: int| 0 <= i < a.len() ==> a[i] != '\n') ==> lines(a) == seq![a],
{
    lemma_lines_from_split(a, b, Seq::empty());
    assert(Seq::<char>::empty() + a =~= a);
    assert(a.push('\r').drop_last() =~= a);
    if a.len() > 0 {
        lemma_lines_from_plain(a, Seq::empty());
        assert(Seq::<char>::empty() + a =~= a);
    }
}

proof fn lemma_lines_from_plain(a: Seq<char>, cur: Seq<char>)
    requires
        forall|i: int| 0 <= i < a.len() ==> a[i] != '\n',
        cur.len() + a.len() > 0,
    ensures
        lines_from(a, cur) == seq![cur + a],
    decreases a.len(),
{
    if a.len() == 0 {
        assert(cur + a =~= cur);
    } else {
        lemma_lines_from_plain(a.drop_first(), cur.push(a[0]));
        assert(cur.push(a[0]) + a.drop_first() =~= cur + a);
    }
}

} // verus!
