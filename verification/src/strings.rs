//! Verified building blocks for working with strings as sequences of
//! characters: prefix/suffix tests, substring search, replacement,
//! lexicographic comparison, trimming, line splitting and joining.

use vstd::prelude::*;
use vstd::string::StrSliceExecFns;
use vstd::string::StringExecFns;

verus! {

/// `p` is a prefix of `s`.
pub open spec fn starts_with(s: Seq<char>, p: Seq<char>) -> bool {
    p.len() <= s.len() && s.take(p.len() as int) == p
}

/// `p` is a suffix of `s`.
pub open spec fn ends_with(s: Seq<char>, p: Seq<char>) -> bool {
    p.len() <= s.len() && s.skip(s.len() - p.len()) == p
}

/// `sub` occurs somewhere inside `s`.
pub open spec fn contains_seq(s: Seq<char>, sub: Seq<char>) -> bool {
    exists|i: int| 0 <= i <= s.len() - sub.len() && #[trigger] s.subrange(i, i + sub.len()) == sub
}

/// Lexicographic order on character sequences, by code point.
pub open spec fn lex_le(a: Seq<char>, b: Seq<char>) -> bool
    decreases a.len(),
{
    if a.len() == 0 {
        true
    } else if b.len() == 0 {
        false
    } else if (a[0] as int) < (b[0] as int) {
        true
    } else if (b[0] as int) < (a[0] as int) {
        false
    } else {
        lex_le(a.drop_first(), b.drop_first())
    }
}

/// `p` is a prefix of `s`, decided character by character.
pub fn starts_with_str(s: &str, p: &str) -> (r: bool)
    ensures
        r == starts_with(s@, p@),
{
    let slen = s.unicode_len();
    let plen = p.unicode_len();
    if plen > slen {
        return false;
    }
    let mut i: usize = 0;
    while i < plen
        invariant
            0 <= i <= plen,
            plen <= slen,
            plen == p@.len(),
            slen == s@.len(),
            forall|k: int| 0 <= k < i ==> s@[k] == p@[k],
        decreases plen - i,
    {
        if s.get_char(i) != p.get_char(i) {
            assert(s@.take(plen as int)[i as int] != p@[i as int]);
            return false;
        }
        i = i + 1;
    }
    proof {
        assert(s@.take(plen as int) =~= p@);
    }
    true
}

/// `p` is a suffix of `s`, decided character by character.
pub fn ends_with_str(s: &str, p: &str) -> (r: bool)
    ensures
        r == ends_with(s@, p@),
{
    let slen = s.unicode_len();
    let plen = p.unicode_len();
    if plen > slen {
        return false;
    }
    let off: usize = slen - plen;
    let mut i: usize = 0;
    while i < plen
        invariant
            0 <= i <= plen,
            off == slen - plen,
            plen <= slen,
            plen == p@.len(),
            slen == s@.len(),
            forall|k: int| 0 <= k < i ==> s@[off + k] == p@[k],
        decreases plen - i,
    {
        if s.get_char(off + i) != p.get_char(i) {
            assert(s@.skip(off as int)[i as int] != p@[i as int]);
            return false;
        }
        i = i + 1;
    }
    proof {
        assert(s@.skip(off as int) =~= p@);
    }
    true
}

/// The two strings hold the same characters.
pub fn str_eq(a: &str, b: &str) -> (r: bool)
    ensures
        r == (a@ == b@),
{
    let alen = a.unicode_len();
    let blen = b.unicode_len();
    if alen != blen {
        return false;
    }
    let mut i: usize = 0;
    while i < alen
        invariant
            0 <= i <= alen,
            alen == a@.len(),
            alen == b@.len(),
            forall|k: int| 0 <= k < i ==> a@[k] == b@[k],
        decreases alen - i,
    {
        if a.get_char(i) != b.get_char(i) {
            return false;
        }
        i = i + 1;
    }
    proof {
        assert(a@ =~= b@);
    }
    true
}

/// Lexicographic comparison of two strings, by code point.
pub fn str_le(a: &str, b: &str) -> (r: bool)
    ensures
        r == lex_le(a@, b@),
    decreases a@.len(),
{
    let alen = a.unicode_len();
    let blen = b.unicode_len();
    if alen == 0 {
        true
    } else if blen == 0 {
        false
    } else {
        let ca = a.get_char(0);
        let cb = b.get_char(0);
        if ca != cb {
            (ca as u32) < (cb as u32)
        } else {
            assert(a@[0] as int == b@[0] as int);
            let ta = a.substring_char(1, alen);
            let tb = b.substring_char(1, blen);
            proof {
                assert(ta@ =~= a@.drop_first());
                assert(tb@ =~= b@.drop_first());
            }
            str_le(ta, tb)
        }
    }
}

/// Whether `s` matches `sub` at position `from`.
fn matches_at(s: &str, from: usize, sub: &str) -> (r: bool)
    requires
        from + sub@.len() <= s@.len(),
    ensures
        r == (s@.subrange(from as int, from + sub@.len()) == sub@),
{
    let slen = s.unicode_len();
    let sublen = sub.unicode_len();
    let mut i: usize = 0;
    while i < sublen
        invariant
            0 <= i <= sublen,
            sublen == sub@.len(),
            slen == s@.len(),
            from + sublen <= slen,
            forall|k: int| 0 <= k < i ==> s@[from + k] == sub@[k],
        decreases sublen - i,
    {
        if s.get_char(from + i) != sub.get_char(i) {
            assert(s@.subrange(from as int, from + sublen as int)[i as int] != sub@[i as int]);
            return false;
        }
        i = i + 1;
    }
    proof {
        assert(s@.subrange(from as int, from + sublen as int) =~= sub@);
    }
    true
}

/// `sub` occurs somewhere inside `s`, found by a scan over every position.
pub fn contains_str(s: &str, sub: &str) -> (r: bool)
    ensures
        r == contains_seq(s@, sub@),
{
    let slen = s.unicode_len();
    let sublen = sub.unicode_len();
    if sublen > slen {
        return false;
    }
    if sublen == 0 {
        proof {
            assert(contains_seq(s@, sub@)) by {
                assert(s@.subrange(0, 0 + sub@.len() as int) =~= sub@);
            }
        }
        return true;
    }
    let mut i: usize = 0;
    while i <= slen - sublen
        invariant
            0 <= i <= slen - sublen + 1,
            1 <= sublen <= slen,
            slen == s@.len(),
            sublen == sub@.len(),
            forall|k: int| 0 <= k < i ==> #[trigger] s@.subrange(k, k + sub@.len()) != sub@,
        decreases slen + 1 - sublen - i,
    {
        if matches_at(s, i, sub) {
            return true;
        }
        i = i + 1;
    }
    false
}

/// The concatenation of two strings.
pub fn concat2(a: &str, b: &str) -> (r: String)
    ensures
        r@ == a@ + b@,
{
    let mut r = String::from_str(a);
    r.append(b);
    r
}

/// The concatenation of three strings.
pub fn concat3(a: &str, b: &str, c: &str) -> (r: String)
    ensures
        r@ == a@ + b@ + c@,
{
    let mut r = String::from_str(a);
    r.append(b);
    r.append(c);
    r
}

/// The concatenation of four strings.
pub fn concat4(a: &str, b: &str, c: &str, d: &str) -> (r: String)
    ensures
        r@ == a@ + b@ + c@ + d@,
{
    let mut r = String::from_str(a);
    r.append(b);
    r.append(c);
    r.append(d);
    r
}

/// What is left of `s` after a prefix `p`, when `s` begins with it.
pub fn strip_prefix_str(s: &str, p: &str) -> (r: Option<String>)
    ensures
        match r {
            Some(t) => starts_with(s@, p@) && t@ == s@.skip(p@.len() as int),
            None => !starts_with(s@, p@),
        },
{
    if starts_with_str(s, p) {
        let slen = s.unicode_len();
        let plen = p.unicode_len();
        let t = s.substring_char(plen, slen);
        proof {
            assert(t@ =~= s@.skip(p@.len() as int));
        }
        Some(String::from_str(t))
    } else {
        None
    }
}

/// What is left of `s` before a suffix `p`, when `s` ends with it.
pub fn strip_suffix_str(s: &str, p: &str) -> (r: Option<String>)
    ensures
        match r {
            Some(t) => ends_with(s@, p@) && t@ == s@.take(s@.len() - p@.len()),
            None => !ends_with(s@, p@),
        },
{
    if ends_with_str(s, p) {
        let slen = s.unicode_len();
        let plen = p.unicode_len();
        let t = s.substring_char(0, slen - plen);
        proof {
            assert(t@ =~= s@.take(s@.len() - p@.len()));
        }
        Some(String::from_str(t))
    } else {
        None
    }
}

/// `s` with every non-overlapping occurrence of `from`, scanned left to
/// right, replaced by `to`. When `from` is empty, `s` is left as it is.
pub open spec fn spec_replace(s: Seq<char>, from: Seq<char>, to: Seq<char>) -> Seq<char>
    decreases s.len(),
{
    if s.len() == 0 {
        s
    } else if from.len() > 0 && starts_with(s, from) {
        to + spec_replace(s.skip(from.len() as int), from, to)
    } else {
        seq![s[0]] + spec_replace(s.skip(1), from, to)
    }
}

/// Replacement of every occurrence of `from` in `s` by `to`.
pub fn replace_str(s: &str, from: &str, to: &str) -> (r: String)
    requires
        from@.len() > 0,
    ensures
        r@ == spec_replace(s@, from@, to@),
    decreases s@.len(),
{
    let slen = s.unicode_len();
    if slen == 0 {
        String::new()
    } else if starts_with_str(s, from) {
        let flen = from.unicode_len();
        let tail = s.substring_char(flen, slen);
        proof {
            assert(tail@ =~= s@.skip(from@.len() as int));
        }
        let rest = replace_str(tail, from, to);
        concat2(to, rest.as_str())
    } else {
        let head = s.substring_char(0, 1);
        let tail = s.substring_char(1, slen);
        proof {
            assert(head@ =~= seq![s@[0]]);
            assert(tail@ =~= s@.skip(1));
        }
        let rest = replace_str(tail, from, to);
        concat2(head, rest.as_str())
    }
}

/// The characters trimmed from a string's edges: the Unicode `White_Space`
/// set, as the standard library's trimming uses it.
pub open spec fn is_ws(c: char) -> bool {
    c == '\t' || c == '\n' || c == '\u{b}' || c == '\u{c}' || c == '\r' || c == ' ' || c
        == '\u{85}' || c == '\u{a0}' || c == '\u{1680}' || (0x2000 <= c as int && c as int
        <= 0x200a) || c == '\u{2028}' || c == '\u{2029}' || c == '\u{202f}' || c == '\u{205f}' || c
        == '\u{3000}'
}

/// Whether a character is trimmed from a string's edges.
pub fn is_ws_char(c: char) -> (r: bool)
    ensures
        r == is_ws(c),
{
    c == '\t' || c == '\n' || c == '\u{b}' || c == '\u{c}' || c == '\r' || c == ' ' || c
        == '\u{85}' || c == '\u{a0}' || c == '\u{1680}' || (0x2000 <= (c as u32) && (c as u32)
        <= 0x200a) || c == '\u{2028}' || c == '\u{2029}' || c == '\u{202f}' || c == '\u{205f}' || c
        == '\u{3000}'
}

/// `s` without its leading blank characters.
pub open spec fn spec_trim_start(s: Seq<char>) -> Seq<char>
    decreases s.len(),
{
    if s.len() > 0 && is_ws(s[0]) {
        spec_trim_start(s.drop_first())
    } else {
        s
    }
}

/// `s` without its trailing blank characters.
pub open spec fn spec_trim_end(s: Seq<char>) -> Seq<char>
    decreases s.len(),
{
    if s.len() > 0 && is_ws(s.last()) {
        spec_trim_end(s.drop_last())
    } else {
        s
    }
}

/// `s` without leading and trailing blank characters.
pub open spec fn spec_trim(s: Seq<char>) -> Seq<char> {
    spec_trim_end(spec_trim_start(s))
}

fn trim_start_str(s: &str) -> (r: String)
    ensures
        r@ == spec_trim_start(s@),
    decreases s@.len(),
{
    let slen = s.unicode_len();
    if slen > 0 && is_ws_char(s.get_char(0)) {
        let tail = s.substring_char(1, slen);
        proof {
            assert(tail@ =~= s@.drop_first());
        }
        trim_start_str(tail)
    } else {
        String::from_str(s)
    }
}

fn trim_end_str(s: &str) -> (r: String)
    ensures
        r@ == spec_trim_end(s@),
    decreases s@.len(),
{
    let slen = s.unicode_len();
    if slen > 0 && is_ws_char(s.get_char(slen - 1)) {
        let head = s.substring_char(0, slen - 1);
        proof {
            assert(head@ =~= s@.drop_last());
        }
        trim_end_str(head)
    } else {
        String::from_str(s)
    }
}

/// `s` without leading and trailing blank characters.
pub fn trim_str(s: &str) -> (r: String)
    ensures
        r@ == spec_trim(s@),
{
    let t = trim_start_str(s);
    trim_end_str(t.as_str())
}

/// A line without a trailing carriage return.
pub open spec fn strip_cr(l: Seq<char>) -> Seq<char> {
    if l.len() > 0 && l.last() == '\r' {
        l.drop_last()
    } else {
        l
    }
}

/// The lines of `s` gathered from the characters still to be read, with
/// `cur` holding the characters of the current line read so far.
pub open spec fn split_lines_from(s: Seq<char>, cur: Seq<char>) -> Seq<Seq<char>>
    decreases s.len(),
{
    if s.len() == 0 {
        seq![strip_cr(cur)]
    } else if s[0] == '\n' {
        if s.len() == 1 {
            seq![strip_cr(cur)]
        } else {
            seq![strip_cr(cur)] + split_lines_from(s.drop_first(), Seq::empty())
        }
    } else {
        split_lines_from(s.drop_first(), cur.push(s[0]))
    }
}

/// The lines of `s`: pieces separated by a newline, each without a trailing
/// carriage return, with no final empty piece after a trailing newline.
pub open spec fn spec_lines(s: Seq<char>) -> Seq<Seq<char>> {
    if s.len() == 0 {
        Seq::empty()
    } else {
        split_lines_from(s, Seq::empty())
    }
}

fn strip_cr_string(l: String) -> (r: String)
    ensures
        r@ == strip_cr(l@),
{
    let len = l.as_str().unicode_len();
    if len > 0 && l.as_str().get_char(len - 1) == '\r' {
        let head = l.as_str().substring_char(0, len - 1);
        proof {
            assert(head@ =~= l@.drop_last());
        }
        String::from_str(head)
    } else {
        l
    }
}

fn split_lines_from_str(s: &str, cur: String) -> (r: Vec<String>)
    ensures
        r.deep_view() == split_lines_from(s@, cur@),
    decreases s@.len(),
{
    let slen = s.unicode_len();
    if slen == 0 {
        let mut v: Vec<String> = Vec::new();
        v.push(strip_cr_string(cur));
        proof {
            assert(v.deep_view() =~= split_lines_from(s@, cur@));
        }
        v
    } else {
        let c = s.get_char(0);
        let tail = s.substring_char(1, slen);
        proof {
            assert(tail@ =~= s@.drop_first());
        }
        if c == '\n' {
            let mut v: Vec<String> = Vec::new();
            v.push(strip_cr_string(cur));
            if slen == 1 {
                proof {
                    assert(v.deep_view() =~= split_lines_from(s@, cur@));
                }
                v
            } else {
                let mut rest = split_lines_from_str(tail, String::new());
                v.append(&mut rest);
                proof {
                    assert(v.deep_view() =~= split_lines_from(s@, cur@));
                }
                v
            }
        } else {
            let head = s.substring_char(0, 1);
            let ghost cur0 = cur@;
            let mut cur2 = cur;
            cur2.append(head);
            proof {
                assert(cur2@ =~= cur0.push(s@[0]));
            }
            split_lines_from_str(tail, cur2)
        }
    }
}

/// The lines of `s`, split at newlines.
pub fn lines_of(s: &str) -> (r: Vec<String>)
    ensures
        r.deep_view() == spec_lines(s@),
{
    if s.unicode_len() == 0 {
        let v: Vec<String> = Vec::new();
        proof {
            assert(v.deep_view() =~= spec_lines(s@));
        }
        v
    } else {
        split_lines_from_str(s, String::new())
    }
}

/// The pieces of `vs` joined by a newline.
pub open spec fn spec_join_lines(vs: Seq<Seq<char>>) -> Seq<char>
    decreases vs.len(),
{
    if vs.len() == 0 {
        Seq::empty()
    } else if vs.len() == 1 {
        vs[0]
    } else {
        vs[0] + seq!['\n'] + spec_join_lines(vs.drop_first())
    }
}

fn join_lines_from(v: &Vec<String>, i: usize) -> (r: String)
    requires
        i <= v@.len(),
    ensures
        r@ == spec_join_lines(v.deep_view().skip(i as int)),
    decreases v@.len() - i,
{
    if i == v.len() {
        proof {
            assert(v.deep_view().skip(i as int) =~= Seq::<Seq<char>>::empty());
        }
        String::new()
    } else if i + 1 == v.len() {
        let r = v[i].clone();
        proof {
            assert(v.deep_view().skip(i as int) =~= seq![v.deep_view()[i as int]]);
        }
        r
    } else {
        let rest = join_lines_from(v, i + 1);
        let r = concat3(v[i].as_str(), "\n", rest.as_str());
        proof {
            reveal_strlit("\n");
            let tail = v.deep_view().skip(i as int);
            assert(tail.drop_first() =~= v.deep_view().skip(i + 1));
            assert(tail[0] == v.deep_view()[i as int]);
            assert("\n"@ =~= seq!['\n']);
        }
        r
    }
}

/// The pieces of `v` joined by a newline.
pub fn join_lines(v: &Vec<String>) -> (r: String)
    ensures
        r@ == spec_join_lines(v.deep_view()),
{
    let r = join_lines_from(v, 0);
    proof {
        assert(v.deep_view().skip(0) =~= v.deep_view());
    }
    r
}

/// A string with no blank character at either edge is already trimmed.
pub proof fn lemma_trim_identity(v: Seq<char>)
    requires
        v.len() == 0 || (!is_ws(v[0]) && !is_ws(v.last())),
    ensures
        spec_trim(v) == v,
{
    assert(spec_trim_start(v) == v);
    assert(spec_trim_end(v) == v);
}

/// Reading characters without a newline moves them from the text still to
/// be read into the current line.
proof fn lemma_split_from_clean(a: Seq<char>, s: Seq<char>, cur: Seq<char>)
    requires
        !a.contains('\n'),
    ensures
        split_lines_from(a + s, cur) == split_lines_from(s, cur + a),
    decreases a.len(),
{
    if a.len() == 0 {
        assert(a + s =~= s);
        assert(cur + a =~= cur);
    } else {
        assert(a[0] != '\n');
        let t = a + s;
        assert(t.len() > 0 && t[0] == a[0]);
        assert(t.drop_first() =~= a.drop_first() + s);
        assert(!a.drop_first().contains('\n')) by {
            if a.drop_first().contains('\n') {
                let i = choose|i: int| 0 <= i < a.drop_first().len() && a.drop_first()[i] == '\n';
                assert(a[i + 1] == '\n');
            }
        }
        lemma_split_from_clean(a.drop_first(), s, cur.push(a[0]));
        assert(cur.push(a[0]) + a.drop_first() =~= cur + a);
    }
}

/// Joining lines and splitting them again gives the lines back, as long as
/// each is non-empty, holds no newline, and does not end in a carriage
/// return.
pub proof fn lemma_lines_of_join(vs: Seq<Seq<char>>)
    requires
        forall|k: int|
            0 <= k < vs.len() ==> (#[trigger] vs[k]).len() > 0 && !vs[k].contains('\n')
                && vs[k].last() != '\r',
    ensures
        spec_lines(spec_join_lines(vs)) == vs,
    decreases vs.len(),
{
    if vs.len() == 0 {
        assert(spec_lines(spec_join_lines(vs)) =~= vs);
    } else if vs.len() == 1 {
        let v = vs[0];
        lemma_split_from_clean(v, Seq::empty(), Seq::empty());
        assert(v + Seq::<char>::empty() =~= v);
        assert(Seq::<char>::empty() + v =~= v);
        assert(split_lines_from(Seq::empty(), v) == seq![strip_cr(v)]);
        assert(strip_cr(v) == v);
        assert(spec_lines(spec_join_lines(vs)) =~= vs);
    } else {
        let v0 = vs[0];
        let rest = vs.drop_first();
        let tail = seq!['\n'] + spec_join_lines(rest);
        assert(spec_join_lines(vs) =~= v0 + tail);
        lemma_split_from_clean(v0, tail, Seq::empty());
        assert(Seq::<char>::empty() + v0 =~= v0);
        assert(rest[0] == vs[1] && rest[0].len() > 0);
        assert(spec_join_lines(rest).len() > 0) by {
            if rest.len() == 1 {
                assert(spec_join_lines(rest) == rest[0]);
            } else {
                assert(spec_join_lines(rest) == rest[0] + seq!['\n'] + spec_join_lines(
                    rest.drop_first(),
                ));
            }
        }
        assert(tail[0] == '\n' && tail.len() > 1);
        assert(tail.drop_first() =~= spec_join_lines(rest));
        assert(split_lines_from(tail, v0) == seq![strip_cr(v0)] + split_lines_from(
            spec_join_lines(rest),
            Seq::empty(),
        ));
        assert(strip_cr(v0) == v0);
        assert forall|k: int| 0 <= k < rest.len() implies (#[trigger] rest[k]).len() > 0
            && !rest[k].contains('\n') && rest[k].last() != '\r' by {
            assert(rest[k] == vs[k + 1]);
        }
        lemma_lines_of_join(rest);
        assert(spec_lines(spec_join_lines(rest)) == split_lines_from(
            spec_join_lines(rest),
            Seq::empty(),
        ));
        assert(spec_join_lines(vs).len() > 0);
        assert(spec_lines(spec_join_lines(vs)) =~= seq![v0] + rest);
        assert(seq![v0] + rest =~= vs);
    }
}

/// `s` with every repetition of an earlier element dropped: each element
/// keeps its first occurrence only, in order.
pub open spec fn spec_dedup(s: Seq<Seq<char>>) -> Seq<Seq<char>>
    decreases s.len(),
{
    if s.len() == 0 {
        s
    } else if s.drop_last().contains(s.last()) {
        spec_dedup(s.drop_last())
    } else {
        spec_dedup(s.drop_last()).push(s.last())
    }
}

/// De-duplication keeps exactly the elements that were already there.
pub proof fn lemma_dedup_membership(s: Seq<Seq<char>>, x: Seq<char>)
    ensures
        spec_dedup(s).contains(x) <==> s.contains(x),
    decreases s.len(),
{
    if s.len() > 0 {
        let d = s.drop_last();
        lemma_dedup_membership(d, x);
        assert(s.contains(x) <==> d.contains(x) || x == s.last()) by {
            if s.contains(x) {
                let i = choose|i: int| 0 <= i < s.len() && s[i] == x;
                if i < s.len() - 1 {
                    assert(d[i] == x);
                }
            }
            if d.contains(x) {
                let i = choose|i: int| 0 <= i < d.len() && d[i] == x;
                assert(s[i] == x);
            }
            if x == s.last() {
                assert(s[s.len() - 1] == x);
            }
        }
        if !d.contains(s.last()) {
            let dd = spec_dedup(d);
            assert(spec_dedup(s) == dd.push(s.last()));
            assert(dd.push(s.last()).contains(x) <==> dd.contains(x) || x == s.last()) by {
                if dd.push(s.last()).contains(x) {
                    let i = choose|i: int|
                        0 <= i < dd.push(s.last()).len() && dd.push(s.last())[i] == x;
                    if i < dd.len() {
                        assert(dd[i] == x);
                    }
                }
                if dd.contains(x) {
                    let i = choose|i: int| 0 <= i < dd.len() && dd[i] == x;
                    assert(dd.push(s.last())[i] == x);
                }
                if x == s.last() {
                    assert(dd.push(s.last())[dd.len() as int] == x);
                }
            }
        }
    }
}

/// Whether some element of `v` holds the characters of `x`.
pub fn vec_contains_str(v: &Vec<String>, x: &str) -> (r: bool)
    ensures
        r == v.deep_view().contains(x@),
{
    let n = v.len();
    let mut i: usize = 0;
    while i < n
        invariant
            0 <= i <= n,
            n == v@.len(),
            forall|k: int| 0 <= k < i ==> v.deep_view()[k] != x@,
        decreases n - i,
    {
        if str_eq(v[i].as_str(), x) {
            assert(v.deep_view()[i as int] == x@);
            return true;
        }
        i = i + 1;
    }
    false
}

/// `v` with every repetition of an earlier element dropped.
pub fn dedup_strings(v: &Vec<String>) -> (r: Vec<String>)
    ensures
        r.deep_view() == spec_dedup(v.deep_view()),
{
    let n = v.len();
    let mut out: Vec<String> = Vec::new();
    let mut i: usize = 0;
    proof {
        assert(v.deep_view().take(0) =~= Seq::<Seq<char>>::empty());
    }
    while i < n
        invariant
            0 <= i <= n,
            n == v@.len(),
            out.deep_view() == spec_dedup(v.deep_view().take(i as int)),
        decreases n - i,
    {
        let ghost pre = v.deep_view().take(i as int);
        let ghost post = v.deep_view().take(i + 1);
        proof {
            assert(post.drop_last() =~= pre);
            assert(post.last() == v.deep_view()[i as int]);
            lemma_dedup_membership(pre, v.deep_view()[i as int]);
        }
        if !vec_contains_str(&out, v[i].as_str()) {
            out.push(v[i].clone());
            proof {
                assert(out.deep_view() =~= spec_dedup(post));
            }
        }
        i = i + 1;
    }
    proof {
        assert(v.deep_view().take(n as int) =~= v.deep_view());
    }
    out
}

} // verus!
