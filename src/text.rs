//! Characters, lines and trimming, in the forms that `str` gives them.
use vstd::prelude::*;

verus! {

/// Unicode `White_Space`, the set that `char::is_whitespace` and `str::trim` use.
pub open spec fn is_space(c: char) -> bool {
    c == ' ' || ('\t' <= c && c <= '\r') || c == '\u{85}' || c == '\u{a0}' || c == '\u{1680}'
        || ('\u{2000}' <= c && c <= '\u{200a}') || c == '\u{2028}' || c == '\u{2029}'
        || c == '\u{202f}' || c == '\u{205f}' || c == '\u{3000}'
}

pub fn space_char(c: char) -> (r: bool)
    ensures
        r == is_space(c),
{
    c == ' ' || ('\t' <= c && c <= '\r') || c == '\u{85}' || c == '\u{a0}' || c == '\u{1680}'
        || ('\u{2000}' <= c && c <= '\u{200a}') || c == '\u{2028}' || c == '\u{2029}'
        || c == '\u{202f}' || c == '\u{205f}' || c == '\u{3000}'
}


/// The pieces of `s` between line feeds, as `str::split('\n')` gives them.
pub open spec fn split_newlines(s: Seq<char>) -> Seq<Seq<char>>
    decreases s.len(),
{
    if s.len() == 0 {
        seq![Seq::empty()]
    } else {
        let p = split_newlines(s.drop_last());
        if s.last() == '\n' {
            p.push(Seq::empty())
        } else {
            p.update(p.len() - 1, p.last().push(s.last()))
        }
    }
}

pub(crate) proof fn lemma_split_nonempty(s: Seq<char>)
    ensures
        split_newlines(s).len() >= 1,
    decreases s.len(),
{
    if s.len() > 0 {
        lemma_split_nonempty(s.drop_last());
    }
}

/// The lines of `s` as `str::lines` splits them: a final line feed ends the last
/// line and opens no new one. A carriage return before a line feed stays in its
/// line; trimming takes it away.
pub open spec fn lines_of(s: Seq<char>) -> Seq<Seq<char>> {
    let p = split_newlines(s);
    if p.last().len() == 0 {
        p.drop_last()
    } else {
        p
    }
}

/// `s` without leading whitespace.
pub open spec fn trim_start(s: Seq<char>) -> Seq<char>
    decreases s.len(),
{
    if s.len() > 0 && is_space(s[0]) {
        trim_start(s.drop_first())
    } else {
        s
    }
}

/// `s` without trailing whitespace.
pub open spec fn trim_end(s: Seq<char>) -> Seq<char>
    decreases s.len(),
{
    if s.len() > 0 && is_space(s.last()) {
        trim_end(s.drop_last())
    } else {
        s
    }
}

/// `s` without surrounding whitespace, as `str::trim` gives it.
pub open spec fn trim(s: Seq<char>) -> Seq<char> {
    trim_end(trim_start(s))
}

/// The first `n` elements of `s`, or all of them where there are fewer.
pub open spec fn take_at_most<A>(s: Seq<A>, n: int) -> Seq<A> {
    if n < s.len() {
        s.take(n)
    } else {
        s
    }
}

/// The character sequences that a vector of lines holds.
pub open spec fn lines_view(v: Seq<Vec<char>>) -> Seq<Seq<char>> {
    v.map_values(|l: Vec<char>| l@)
}

/// Splits `t[s..e]` into its lines.
pub(crate) fn split_lines(t: &Vec<char>, s: usize, e: usize) -> (r: Vec<Vec<char>>)
    requires
        s <= e <= t.len(),
    ensures
        lines_view(r@) == lines_of(t@.subrange(s as int, e as int)),
{
    let mut done: Vec<Vec<char>> = Vec::new();
    let mut cur: Vec<char> = Vec::new();
    let mut i: usize = s;
    assert(t@.subrange(s as int, s as int) =~= Seq::<char>::empty());
    while i < e
        invariant
            s <= i <= e <= t.len(),
            split_newlines(t@.subrange(s as int, i as int)) == lines_view(done@).push(cur@),
        decreases e - i,
    {
        let ghost prev = t@.subrange(s as int, i as int);
        let ghost next = t@.subrange(s as int, i + 1);
        assert(next.drop_last() =~= prev);
        let c = t[i];
        if c == '\n' {
            let ghost old_done = lines_view(done@);
            let ghost old_cur = cur@;
            done.push(cur);
            assert(lines_view(done@) =~= old_done.push(old_cur));
            cur = Vec::new();
            assert(lines_view(done@).push(cur@) =~= split_newlines(prev).push(Seq::empty()));
        } else {
            let ghost old_done = lines_view(done@);
            cur.push(c);
            assert(lines_view(done@) =~= old_done);
            assert(lines_view(done@).push(cur@) =~= split_newlines(prev).update(
                split_newlines(prev).len() - 1,
                split_newlines(prev).last().push(c),
            ));
        }
        i = i + 1;
    }
    assert(t@.subrange(s as int, i as int) == t@.subrange(s as int, e as int));
    if cur.len() > 0 {
        let ghost old_done = lines_view(done@);
        let ghost old_cur = cur@;
        done.push(cur);
        assert(lines_view(done@) =~= old_done.push(old_cur));
    } else {
        assert(lines_view(done@) =~= lines_view(done@).push(cur@).drop_last());
    }
    done
}

/// Trims surrounding whitespace off `s`.
pub(crate) fn trim_chars(s: &Vec<char>) -> (r: Vec<char>)
    ensures
        r@ == trim(s@),
{
    let mut a: usize = 0;
    assert(s@.subrange(0, s@.len() as int) =~= s@);
    while a < s.len() && space_char(s[a])
        invariant
            a <= s.len(),
            trim_start(s@.subrange(a as int, s@.len() as int)) == trim_start(s@),
        decreases s.len() - a,
    {
        assert(s@.subrange(a as int, s@.len() as int).drop_first() =~= s@.subrange(
            a + 1,
            s@.len() as int,
        ));
        a = a + 1;
    }
    let mut b: usize = s.len();
    while b > a && space_char(s[b - 1])
        invariant
            a <= b <= s.len(),
            trim_end(s@.subrange(a as int, b as int)) == trim(s@),
        decreases b,
    {
        assert(s@.subrange(a as int, b as int).drop_last() =~= s@.subrange(a as int, b - 1));
        b = b - 1;
    }
    let mut r: Vec<char> = Vec::new();
    let mut k: usize = a;
    while k < b
        invariant
            a <= k <= b <= s.len(),
            r@ =~= s@.subrange(a as int, k as int),
        decreases b - k,
    {
        r.push(s[k]);
        k = k + 1;
    }
    r
}


pub(crate) proof fn lemma_split_first(s: Seq<char>)
    requires
        s.len() > 0,
        s[0] != '\n',
    ensures
        split_newlines(s).len() >= 1,
        split_newlines(s)[0].len() >= 1,
        split_newlines(s)[0][0] == s[0],
    decreases s.len(),
{
    lemma_split_nonempty(s.drop_last());
    if s.len() > 1 {
        lemma_split_first(s.drop_last());
    }
}

pub(crate) proof fn lemma_trim_end_keeps_first(x: Seq<char>)
    requires
        x.len() > 0,
        !is_space(x[0]),
    ensures
        trim_end(x).len() >= 1,
        trim_end(x)[0] == x[0],
    decreases x.len(),
{
    if is_space(x.last()) {
        lemma_trim_end_keeps_first(x.drop_last());
    }
}

/// The characters of `text`, in order.
pub fn chars_of(text: &str) -> (r: Vec<char>)
    ensures
        r@ == text@,
{
    let n = text.unicode_len();
    let mut r: Vec<char> = Vec::new();
    let mut i: usize = 0;
    while i < n
        invariant
            n == text@.len(),
            i <= n,
            r@ =~= text@.take(i as int),
        decreases n - i,
    {
        r.push(text.get_char(i));
        i = i + 1;
    }
    r
}

/// `t` occurs in `s` as a contiguous piece.
pub open spec fn contains_seq(s: Seq<char>, t: Seq<char>) -> bool {
    exists|i: int| 0 <= i && i + t.len() <= s.len() && #[trigger] s.subrange(i, i + t.len()) == t
}

/// Lines joined by line feeds.
pub open spec fn join_lines(ls: Seq<Seq<char>>) -> Seq<char>
    decreases ls.len(),
{
    if ls.len() == 0 {
        Seq::empty()
    } else if ls.len() == 1 {
        ls[0]
    } else {
        join_lines(ls.drop_last()) + seq!['\n'] + ls.last()
    }
}

pub(crate) fn contains_chars(s: &Vec<char>, t: &Vec<char>) -> (r: bool)
    ensures
        r == contains_seq(s@, t@),
{
    if t.len() > s.len() {
        return false;
    }
    let mut i: usize = 0;
    while i <= s.len() - t.len()
        invariant
            t.len() <= s.len(),
            i <= s.len() - t.len() + 1,
            forall|m: int| 0 <= m < i ==> #[trigger] s@.subrange(m, m + t@.len()) != t@,
        decreases s.len() - t.len() + 1 - i,
    {
        let mut j: usize = 0;
        while j < t.len() && s[i + j] == t[j]
            invariant
                i + t.len() <= s.len(),
                j <= t.len(),
                s@.subrange(i as int, i + j) =~= t@.take(j as int),
            decreases t.len() - j,
        {
            j = j + 1;
        }
        if j == t.len() {
            assert(s@.subrange(i as int, i + t@.len()) =~= t@);
            return true;
        }
        assert(s@.subrange(i as int, i + t@.len())[j as int] != t@[j as int]);
        i = i + 1;
    }
    false
}

pub(crate) fn chars_copy(s: &Vec<char>) -> (r: Vec<char>)
    ensures
        r@ == s@,
{
    let mut r: Vec<char> = Vec::new();
    let mut i: usize = 0;
    while i < s.len()
        invariant
            i <= s.len(),
            r@ =~= s@.take(i as int),
        decreases s.len() - i,
    {
        r.push(s[i]);
        i = i + 1;
    }
    r
}

pub(crate) proof fn lemma_split_append(s: Seq<char>, b: Seq<char>)
    requires
        forall|m: int| 0 <= m < b.len() ==> #[trigger] b[m] != '\n',
    ensures
        split_newlines(s + b) == split_newlines(s).update(
            split_newlines(s).len() - 1,
            split_newlines(s).last() + b,
        ),
    decreases b.len(),
{
    lemma_split_nonempty(s);
    if b.len() == 0 {
        assert(s + b =~= s);
        assert(split_newlines(s).last() + b =~= split_newlines(s).last());
        assert(split_newlines(s).update(split_newlines(s).len() - 1, split_newlines(s).last())
            =~= split_newlines(s));
    } else {
        let b0 = b.drop_last();
        lemma_split_append(s, b0);
        assert((s + b).drop_last() =~= s + b0);
        assert(split_newlines(s).last() + b0 + seq![b.last()] =~= split_newlines(s).last() + b);
        let p = split_newlines(s);
        let q = split_newlines(s + b0);
        assert((s + b).last() == b.last());
        assert(b.last() == b[b.len() - 1]);
        assert(q.len() == p.len());
        assert(q.last() == p.last() + b0);
        assert(split_newlines(s + b) == q.update(q.len() - 1, q.last().push(b.last())));
        assert(q.last().push(b.last()) =~= p.last() + b);
        assert(split_newlines(s + b) =~= p.update(p.len() - 1, p.last() + b));
    }
}

} // verus!
