//! Extraction and validation of a rectangular grid of source text.
use vstd::arithmetic::div_mod::lemma_mod_multiples_basic;
use crate::text::{
    chars_copy, chars_of, contains_chars, contains_seq, is_space, join_lines, lemma_split_append,
    lemma_split_first, lemma_split_nonempty, lemma_trim_end_keeps_first, lines_of, lines_view,
    space_char, split_lines, split_newlines, take_at_most, trim, trim_chars, trim_end, trim_start,
};
use vstd::prelude::*;
use vstd::slice::slice_subrange;

verus! {

/// Characters that may appear in a grid: letters, digits and `# . * =`.
pub open spec fn is_code_char(c: char) -> bool {
    ('a' <= c && c <= 'z') || ('A' <= c && c <= 'Z') || ('0' <= c && c <= '9') || c == '#'
        || c == '.' || c == '*' || c == '='
}

pub fn code_char(c: char) -> (r: bool)
    ensures
        r == is_code_char(c),
{
    ('a' <= c && c <= 'z') || ('A' <= c && c <= 'Z') || ('0' <= c && c <= '9') || c == '#'
        || c == '.' || c == '*' || c == '='
}

/// End of the run of code characters that starts at `i`.
pub open spec fn code_run_end(t: Seq<char>, i: int) -> int
    decreases t.len() - i,
{
    if 0 <= i < t.len() && is_code_char(t[i]) {
        code_run_end(t, i + 1)
    } else {
        i
    }
}

/// End of the run of whitespace that starts at `i`.
pub open spec fn space_run_end(t: Seq<char>, i: int) -> int
    decreases t.len() - i,
{
    if 0 <= i < t.len() && is_space(t[i]) {
        space_run_end(t, i + 1)
    } else {
        i
    }
}

/// Index of the first code character at or after `i`, or the length of `t`.
pub open spec fn first_code_from(t: Seq<char>, i: int) -> int
    decreases t.len() - i,
{
    if i < 0 || i >= t.len() {
        t.len() as int
    } else if is_code_char(t[i]) {
        i
    } else {
        first_code_from(t, i + 1)
    }
}

/// End of the code block that starts with the run of code characters at `i`.
///
/// A block is a run of code characters followed by whitespace; it goes on to the
/// next run only where that whitespace ends with a line feed.
pub open spec fn block_end(t: Seq<char>, i: int) -> int
    decreases t.len() - i,
{
    let j = code_run_end(t, i);
    let k = space_run_end(t, j);
    if 0 <= i < j && j < k < t.len() && t[k - 1] == '\n' && is_code_char(t[k]) {
        block_end(t, k)
    } else {
        k
    }
}

proof fn lemma_code_run_bounds(t: Seq<char>, i: int)
    requires
        0 <= i <= t.len(),
    ensures
        i <= code_run_end(t, i) <= t.len(),
        forall|m: int| i <= m < code_run_end(t, i) ==> is_code_char(#[trigger] t[m]),
        code_run_end(t, i) < t.len() ==> !is_code_char(t[code_run_end(t, i)]),
    decreases t.len() - i,
{
    if i < t.len() && is_code_char(t[i]) {
        lemma_code_run_bounds(t, i + 1);
    }
}

proof fn lemma_space_run_bounds(t: Seq<char>, i: int)
    requires
        0 <= i <= t.len(),
    ensures
        i <= space_run_end(t, i) <= t.len(),
        forall|m: int| i <= m < space_run_end(t, i) ==> is_space(#[trigger] t[m]),
        space_run_end(t, i) < t.len() ==> !is_space(t[space_run_end(t, i)]),
    decreases t.len() - i,
{
    if i < t.len() && is_space(t[i]) {
        lemma_space_run_bounds(t, i + 1);
    }
}

fn scan_code_run(t: &Vec<char>, i: usize) -> (r: usize)
    requires
        i <= t.len(),
    ensures
        r == code_run_end(t@, i as int),
{
    let mut j: usize = i;
    while j < t.len() && code_char(t[j])
        invariant
            i <= j <= t.len(),
            code_run_end(t@, j as int) == code_run_end(t@, i as int),
        decreases t.len() - j,
    {
        j = j + 1;
    }
    j
}

fn scan_space_run(t: &Vec<char>, i: usize) -> (r: usize)
    requires
        i <= t.len(),
    ensures
        r == space_run_end(t@, i as int),
{
    let mut j: usize = i;
    while j < t.len() && space_char(t[j])
        invariant
            i <= j <= t.len(),
            space_run_end(t@, j as int) == space_run_end(t@, i as int),
        decreases t.len() - j,
    {
        j = j + 1;
    }
    j
}

/// Locates the code block of `t`: where it starts and where it ends.
fn find_block(t: &Vec<char>) -> (r: Option<(usize, usize)>)
    ensures
        r is None <==> first_code_from(t@, 0) == t@.len(),
        r matches Some((s, e)) ==> s == first_code_from(t@, 0) && e == block_end(t@, s as int)
            && s < e <= t.len() && is_code_char(t@[s as int]),
{
    let mut s: usize = 0;
    while s < t.len() && !code_char(t[s])
        invariant
            s <= t.len(),
            first_code_from(t@, s as int) == first_code_from(t@, 0),
        decreases t.len() - s,
    {
        s = s + 1;
    }
    if s == t.len() {
        return None;
    }
    assert(first_code_from(t@, s as int) == s);
    let mut i: usize = s;
    loop
        invariant
            s <= i < t.len(),
            s == first_code_from(t@, 0),
            is_code_char(t@[s as int]),
            is_code_char(t@[i as int]),
            block_end(t@, i as int) == block_end(t@, s as int),
        decreases t.len() - i,
    {
        let j = scan_code_run(t, i);
        proof {
            lemma_code_run_bounds(t@, i as int);
        }
        let k = scan_space_run(t, j);
        proof {
            lemma_space_run_bounds(t@, j as int);
        }
        if i < j && j < k && k < t.len() && t[k - 1] == '\n' && code_char(t[k]) {
            i = k;
        } else {
            return Some((s, k));
        }
    }
}

/// The block of code that a text holds, split into lines.
pub open spec fn block_lines(t: Seq<char>) -> Seq<Seq<char>> {
    let s = first_code_from(t, 0);
    lines_of(t.subrange(s, block_end(t, s)))
}

/// The lines that make up the grid of `t`: the block's first `max_num_lines`
/// lines, each trimmed.
pub open spec fn selected_lines(t: Seq<char>, max_num_lines: nat) -> Seq<Seq<char>> {
    take_at_most(block_lines(t).map_values(|l: Seq<char>| trim(l)), max_num_lines as int)
}

/// The grid of `t` as row-major characters and width, or the reason that there is none.
pub open spec fn parse_outcome(t: Seq<char>, max_line_length: nat, max_num_lines: nat) -> Result<
    (Seq<char>, nat),
    ParseError,
> {
    let lines = selected_lines(t, max_num_lines);
    if first_code_from(t, 0) == t.len() || lines.len() == 0 {
        Err(ParseError::NoCodeFound)
    } else if lines[0].len() > max_line_length {
        Err(ParseError::LinesTooLong)
    } else if exists|i: int| 0 <= i < lines.len() && #[trigger] lines[i].len() != lines[0].len() {
        Err(ParseError::MismatchLineLengths)
    } else {
        Ok((lines.flatten(), lines[0].len()))
    }
}

/// Why a text holds no valid grid.
#[derive(Debug, PartialEq, Eq)]
pub enum ParseError {
    MismatchLineLengths,
    NoCodeFound,
    NoPreludeFound,
    LinesTooLong,
}

impl ParseError {
    /// A sentence that tells a person what went wrong.
    pub fn message(&self) -> (r: String)
        ensures
            *self == ParseError::MismatchLineLengths ==> r@ == "Line lenghts don't match"@,
            *self == ParseError::NoCodeFound ==> r@ == "No Orca source code found"@,
            *self == ParseError::NoPreludeFound ==> r@ == "No run tag found"@,
            *self == ParseError::LinesTooLong ==> r@ == "Lines are too long"@,
    {
        match self {
            ParseError::MismatchLineLengths => "Line lenghts don't match".to_string(),
            ParseError::NoCodeFound => "No Orca source code found".to_string(),
            ParseError::NoPreludeFound => "No run tag found".to_string(),
            ParseError::LinesTooLong => "Lines are too long".to_string(),
        }
    }
}

/// A block's first line, trimmed, keeps the block's first character.
proof fn lemma_first_line_nonempty(b: Seq<char>)
    requires
        b.len() > 0,
        is_code_char(b[0]),
    ensures
        lines_of(b).len() >= 1,
        trim(lines_of(b)[0]).len() >= 1,
{
    lemma_split_first(b);
    let x = lines_of(b)[0];
    assert(trim_start(x) == x);
    lemma_trim_end_keeps_first(x);
}

proof fn lemma_flatten_uniform(lines: Seq<Seq<char>>, w: nat)
    requires
        forall|i: int| 0 <= i < lines.len() ==> (#[trigger] lines[i]).len() == w,
    ensures
        lines.flatten().len() == lines.len() * w,
    decreases lines.len(),
{
    if lines.len() == 0 {
        assert(lines.len() * w == 0);
    } else {
        let rest = lines.drop_first();
        assert forall|i: int| 0 <= i < rest.len() implies (#[trigger] rest[i]).len() == w by {
            assert(rest[i] == lines[i + 1]);
        }
        lemma_flatten_uniform(rest, w);
        assert(lines.flatten() == lines.first() + rest.flatten());
        assert(lines[0].len() == w);
        let m = rest.len();
        assert((m + 1) * w == w + m * w) by (nonlinear_arith);
        assert(lines.len() == m + 1);
    }
}

/// A grid of characters, stored row by row; `width` characters make a row.
pub struct OrcaSource {
    pub data: Vec<char>,
    pub width: u8,
}

impl OrcaSource {
    /// The grid is rectangular.
    pub open spec fn wf(&self) -> bool {
        self.width >= 1 && (self.data@.len() as int) % (self.width as int) == 0
    }

    /// The grid's rows, top to bottom.
    pub open spec fn rows(&self) -> Seq<Seq<char>> {
        let w = self.width as int;
        Seq::new(
            (self.data@.len() as int / w) as nat,
            |i: int| self.data@.subrange(i * w, i * w + w),
        )
    }

    /// The rows of the grid, in order, as slices of its data.
    pub fn iter_lines(&self) -> (r: LineIter<'_>)
        requires
            self.wf(),
        ensures
            r@ == (self.rows(), 0nat),
    {
        assert(0int % (self.width as int) == 0);
        LineIter { source: self, ptr: 0 }
    }
}

/// A walk over the rows of an `OrcaSource`.
pub struct LineIter<'t> {
    source: &'t OrcaSource,
    ptr: usize,
}

impl<'t> View for LineIter<'t> {
    /// The rows of the grid, and how many of them were handed out.
    type V = (Seq<Seq<char>>, nat);

    closed spec fn view(&self) -> (Seq<Seq<char>>, nat) {
        (self.source.rows(), (self.ptr as int / (self.source.width as int)) as nat)
    }
}

impl<'t> LineIter<'t> {
    #[verifier::type_invariant]
    spec fn inv(&self) -> bool {
        &&& self.source.wf()
        &&& self.ptr <= self.source.data@.len()
        &&& (self.ptr as int) % (self.source.width as int) == 0
    }

    /// The next row, or `None` once every row was handed out.
    pub fn next(&mut self) -> (r: Option<&'t [char]>)
        ensures
            final(self)@.0 == old(self)@.0,
            old(self)@.1 < old(self)@.0.len() ==> (r matches Some(l) && l@ == old(self)@.0[old(
                self,
            )@.1 as int] && final(self)@.1 == old(self)@.1 + 1),
            old(self)@.1 >= old(self)@.0.len() ==> r is None && final(self)@.1 == old(self)@.1,
    {
        proof {
            use_type_invariant(&*self);
        }
        let w = self.source.width as usize;
        let ghost wi = w as int;
        let ghost n = self.source.data@.len();
        proof {
            vstd::arithmetic::div_mod::lemma_fundamental_div_mod(self.ptr as int, wi);
            vstd::arithmetic::div_mod::lemma_fundamental_div_mod(n as int, wi);
        }
        if self.ptr >= self.source.data.len() {
            assert(self.ptr as int / wi >= n as int / wi) by (nonlinear_arith)
                requires
                    self.ptr >= n,
                    wi > 0,
            ;
            None
        } else {
            let p = self.ptr;
            let ghost k = p as int / wi;
            assert(p as int == k * wi && n as int == (n as int / wi) * wi) by (nonlinear_arith)
                requires
                    p as int == wi * (p as int / wi) + (p as int) % wi,
                    (p as int) % wi == 0,
                    k == p as int / wi,
                    n as int == wi * (n as int / wi) + (n as int) % wi,
                    (n as int) % wi == 0,
            ;
            assert(k < n as int / wi && p + wi <= n) by (nonlinear_arith)
                requires
                    p as int == k * wi,
                    n as int == (n as int / wi) * wi,
                    p < n,
                    wi > 0,
            ;
            let l = slice_subrange(self.source.data.as_slice(), p, p + w);
            assert((p + wi) / wi == k + 1 && (p + wi) % wi == 0) by (nonlinear_arith)
                requires
                    p as int == k * wi,
                    wi > 0,
            ;
            self.ptr = p + w;
            Some(l)
        }
    }
}

/// What a valid grid looks like, and how it is introduced in a post.
pub struct ParseConfig<'t> {
    /// A post must mention this in its first line to be run.
    pub tag: &'t str,
    pub max_line_length: u8,
    pub max_num_lines: u8,
}

impl<'t> Default for ParseConfig<'t> {
    fn default() -> (r: Self)
        ensures
            r.tag@ == "run"@,
            r.max_line_length == 64,
            r.max_num_lines == 64,
    {
        Self { tag: "run", max_line_length: 64, max_num_lines: 64 }
    }
}

/// What a parse gives, with the grid as its characters and width.
pub open spec fn grid_result(r: Result<OrcaSource, ParseError>) -> Result<(Seq<char>, nat), ParseError> {
    match r {
        Ok(src) => Ok((src.data@, src.width as nat)),
        Err(e) => Err(e),
    }
}

/// Extracts the grid from `t`.
fn parse_chars(t: &Vec<char>, max_line_length: u8, max_num_lines: u8) -> (r: Result<OrcaSource, ParseError>)
    ensures
        grid_result(r) == parse_outcome(t@, max_line_length as nat, max_num_lines as nat),
        r matches Ok(src) ==> src.wf(),
{
    let blk = find_block(t);
    let (s, e) = match blk {
        None => {
            return Err(ParseError::NoCodeFound);
        },
        Some(p) => p,
    };
    let lines = split_lines(t, s, e);
    let ghost all = lines_view(lines@).map_values(|l: Seq<char>| trim(l));
    let ghost sel = selected_lines(t@, max_num_lines as nat);
    let max = max_num_lines as usize;
    let n = if max < lines.len() {
        max
    } else {
        lines.len()
    };
    assert(sel =~= all.take(n as int));
    let mut chosen: Vec<Vec<char>> = Vec::new();
    let mut k: usize = 0;
    while k < n
        invariant
            k <= n <= lines.len(),
            all == lines_view(lines@).map_values(|l: Seq<char>| trim(l)),
            lines_view(chosen@) =~= all.take(k as int),
        decreases n - k,
    {
        let line = trim_chars(&lines[k]);
        assert(lines_view(lines@)[k as int] == lines@[k as int]@);
        let ghost old_chosen = lines_view(chosen@);
        chosen.push(line);
        assert(lines_view(chosen@) =~= old_chosen.push(all[k as int]));
        k = k + 1;
    }
    assert(lines_view(chosen@) == sel);
    if n == 0 {
        return Err(ParseError::NoCodeFound);
    }
    proof {
        lemma_code_run_bounds(t@, s as int);
        lemma_first_line_nonempty(t@.subrange(s as int, e as int));
    }
    let first_len = chosen[0].len();
    assert(first_len == sel[0].len());
    if first_len > max_line_length as usize {
        return Err(ParseError::LinesTooLong);
    }
    let mut i: usize = 0;
    while i < n
        invariant
            i <= n == chosen.len(),
            lines_view(chosen@) == sel,
            sel == selected_lines(t@, max_num_lines as nat),
            first_code_from(t@, 0) != t@.len(),
            first_len <= max_line_length,
            first_len == sel[0].len(),
            forall|j: int| 0 <= j < i ==> (#[trigger] sel[j]).len() == first_len,
        decreases n - i,
    {
        if chosen[i].len() != first_len {
            assert(lines_view(chosen@)[i as int] == chosen@[i as int]@);
            assert(sel[i as int].len() != sel[0].len());
            return Err(ParseError::MismatchLineLengths);
        }
        i = i + 1;
    }
    let mut data: Vec<char> = Vec::new();
    let mut i: usize = 0;
    while i < n
        invariant
            i <= n == chosen.len(),
            sel.len() == n,
            lines_view(chosen@) == sel,
            data@ == sel.take(i as int).flatten(),
        decreases n - i,
    {
        let line = &chosen[i];
        let mut j: usize = 0;
        while j < line.len()
            invariant
                j <= line.len(),
                i < n == chosen.len(),
                sel.len() == n,
                line@ == sel[i as int],
                data@ =~= sel.take(i as int).flatten() + line@.take(j as int),
            decreases line.len() - j,
        {
            data.push(line[j]);
            j = j + 1;
        }
        proof {
            sel.take(i as int).lemma_flatten_push(sel[i as int]);
            assert(sel.take(i + 1) =~= sel.take(i as int).push(sel[i as int]));
            assert(line@.take(j as int) =~= line@);
        }
        i = i + 1;
    }
    assert(sel.take(n as int) =~= sel);
    proof {
        lemma_flatten_uniform(sel, first_len as nat);
        lemma_mod_multiples_basic(n as int, first_len as int);
    }
    Ok(OrcaSource { data, width: first_len as u8 })
}

/// Extracts the grid from plain text: the first run of code lines, each trimmed, up
/// to `max_num_lines` of them, which must all be as long as the first, and that no
/// longer than `max_line_length`.
pub fn parse_orca_code(text: &str, parse_config: &ParseConfig) -> (r: Result<OrcaSource, ParseError>)
    ensures
        grid_result(r) == parse_outcome(
            text@,
            parse_config.max_line_length as nat,
            parse_config.max_num_lines as nat,
        ),
        r matches Ok(src) ==> src.wf(),
{
    let t = chars_of(text);
    parse_chars(&t, parse_config.max_line_length, parse_config.max_num_lines)
}


#[verifier::external_type_specification]
#[verifier::external_body]
pub struct ExIoError(std::io::Error);

/// The Markdown text that `htmd` makes of an HTML document.
pub uninterp spec fn markdown_of(html: Seq<char>) -> Seq<char>;

/// Relies on `htmd::convert`: the Markdown rendering of `html`, which depends on
/// `html` alone. It always succeeds: the document tree is built in memory, and
/// the error case of its signature is never taken.
#[verifier::external_body]
fn html_to_markdown(html: &str) -> (r: Result<String, std::io::Error>)
    ensures
        r is Ok,
        r matches Ok(md) ==> md@ == markdown_of(html@),
{
    htmd::convert(html)
}

/// A line that holds more than whitespace.
pub open spec fn is_nonblank(l: Seq<char>) -> bool {
    trim(l).len() > 0
}

/// `s` with each `\*` turned into `*`, undoing how Markdown escapes asterisks.
pub open spec fn unescape_stars(s: Seq<char>) -> Seq<char>
    decreases s.len(),
{
    if s.len() == 0 {
        s
    } else if s.len() >= 2 && s[0] == '\\' && s[1] == '*' {
        seq!['*'] + unescape_stars(s.skip(2))
    } else {
        seq![s[0]] + unescape_stars(s.skip(1))
    }
}

/// The non-blank lines of a Markdown text.
pub open spec fn markdown_lines(md: Seq<char>) -> Seq<Seq<char>> {
    lines_of(md).filter(|l: Seq<char>| is_nonblank(l))
}

/// The grid that a Markdown post holds: its first non-blank line must mention
/// `tag`; the grid is read from the lines after it, with asterisks unescaped.
pub open spec fn markdown_outcome(
    md: Seq<char>,
    tag: Seq<char>,
    max_line_length: nat,
    max_num_lines: nat,
) -> Result<(Seq<char>, nat), ParseError> {
    let ls = markdown_lines(md);
    if ls.len() == 0 || !contains_seq(ls[0], tag) {
        Err(ParseError::NoPreludeFound)
    } else {
        parse_outcome(
            join_lines(ls.skip(1).map_values(|l: Seq<char>| unescape_stars(l))),
            max_line_length,
            max_num_lines,
        )
    }
}

fn unescape_chars(s: &Vec<char>) -> (r: Vec<char>)
    ensures
        r@ == unescape_stars(s@),
{
    let mut out: Vec<char> = Vec::new();
    let mut i: usize = 0;
    assert(s@.skip(0) =~= s@);
    while i < s.len()
        invariant
            i <= s.len(),
            out@ + unescape_stars(s@.skip(i as int)) == unescape_stars(s@),
        decreases s.len() - i,
    {
        let ghost rest = s@.skip(i as int);
        if i + 1 < s.len() && s[i] == '\\' && s[i + 1] == '*' {
            assert(rest.skip(2) =~= s@.skip(i + 2));
            out.push('*');
            assert(out@ + unescape_stars(s@.skip(i + 2)) =~= unescape_stars(s@));
            i = i + 2;
        } else {
            assert(rest.skip(1) =~= s@.skip(i + 1));
            out.push(s[i]);
            assert(out@ + unescape_stars(s@.skip(i + 1)) =~= unescape_stars(s@));
            i = i + 1;
        }
    }
    assert(s@.skip(i as int) =~= Seq::<char>::empty());
    assert(out@ + Seq::<char>::empty() =~= out@);
    out
}

/// Extracts the grid from a post already rendered as Markdown text.
pub fn parse_markdown(markdown: &str, parse_config: &ParseConfig) -> (r: Result<OrcaSource, ParseError>)
    ensures
        grid_result(r) == markdown_outcome(
            markdown@,
            parse_config.tag@,
            parse_config.max_line_length as nat,
            parse_config.max_num_lines as nat,
        ),
        r matches Ok(src) ==> src.wf(),
{
    let md = chars_of(markdown);
    let all = split_lines(&md, 0, md.len());
    assert(md@.subrange(0, md@.len() as int) =~= md@);
    let ghost pred = |l: Seq<char>| is_nonblank(l);
    let mut kept: Vec<Vec<char>> = Vec::new();
    let mut k: usize = 0;
    while k < all.len()
        invariant
            k <= all.len(),
            lines_view(all@) == lines_of(md@),
            lines_view(kept@) == lines_view(all@).take(k as int).filter(pred),
            pred == (|l: Seq<char>| is_nonblank(l)),
        decreases all.len() - k,
    {
        let ghost before = lines_view(kept@);
        let ghost prefix = lines_view(all@).take(k + 1);
        assert(prefix.drop_last() =~= lines_view(all@).take(k as int));
        assert(prefix.last() == all@[k as int]@);
        proof {
            reveal(Seq::filter);
        }
        let trimmed = trim_chars(&all[k]);
        if trimmed.len() > 0 {
            let line = chars_copy(&all[k]);
            kept.push(line);
            assert(lines_view(kept@) =~= before.push(all@[k as int]@));
        }
        k = k + 1;
    }
    assert(lines_view(all@).take(all.len() as int) =~= lines_view(all@));
    let ghost ls = markdown_lines(md@);
    assert(lines_view(kept@) == ls);
    if kept.len() == 0 {
        return Err(ParseError::NoPreludeFound);
    }
    let tag = chars_of(parse_config.tag);
    if !contains_chars(&kept[0], &tag) {
        return Err(ParseError::NoPreludeFound);
    }
    let ghost body = ls.skip(1).map_values(|l: Seq<char>| unescape_stars(l));
    let mut text: Vec<char> = Vec::new();
    let mut i: usize = 1;
    assert(body.take(0) =~= Seq::<Seq<char>>::empty());
    while i < kept.len()
        invariant
            1 <= i <= kept.len(),
            lines_view(kept@) == ls,
            body == ls.skip(1).map_values(|l: Seq<char>| unescape_stars(l)),
            text@ == join_lines(body.take(i - 1)),
        decreases kept.len() - i,
    {
        let line = unescape_chars(&kept[i]);
        assert(line@ == body[i - 1]);
        let ghost before = text@;
        if i > 1 {
            text.push('\n');
        }
        let mut j: usize = 0;
        while j < line.len()
            invariant
                j <= line.len(),
                i > 1 ==> text@ =~= before + seq!['\n'] + line@.take(j as int),
                i == 1 ==> text@ =~= before + line@.take(j as int),
            decreases line.len() - j,
        {
            text.push(line[j]);
            j = j + 1;
        }
        assert(line@.take(j as int) =~= line@);
        assert(body.take(i as int).drop_last() =~= body.take(i - 1));
        assert(before == Seq::<char>::empty() || i > 1);
        if i == 1 {
            assert(text@ =~= body.take(1)[0]);
        }
        i = i + 1;
    }
    assert(body.take(kept.len() - 1) =~= body);
    parse_chars(&text, parse_config.max_line_length, parse_config.max_num_lines)
}

/// Extracts the grid from an HTML post: the post is rendered as Markdown, then
/// read as `parse_markdown` reads it.
pub fn parse_html(html: &str, parse_config: &ParseConfig) -> (r: Result<OrcaSource, ParseError>)
    ensures
        grid_result(r) == markdown_outcome(
            markdown_of(html@),
            parse_config.tag@,
            parse_config.max_line_length as nat,
            parse_config.max_num_lines as nat,
        ),
        r matches Ok(src) ==> src.wf(),
{
    let md = html_to_markdown(html).unwrap();
    parse_markdown(md.as_str(), parse_config)
}


/// A post whose first non-blank line does not mention the tag is refused for
/// that reason.
pub proof fn lemma_missing_tag_refused(
    md: Seq<char>,
    tag: Seq<char>,
    max_line_length: nat,
    max_num_lines: nat,
)
    requires
        markdown_lines(md).len() == 0 || !contains_seq(markdown_lines(md)[0], tag),
    ensures
        markdown_outcome(md, tag, max_line_length, max_num_lines) == Err::<
            (Seq<char>, nat),
            ParseError,
        >(ParseError::NoPreludeFound),
{
}



/// A line of code characters, not empty.
pub open spec fn is_code_line(l: Seq<char>) -> bool {
    l.len() >= 1 && forall|m: int| 0 <= m < l.len() ==> is_code_char(#[trigger] l[m])
}

/// Whitespace that ends no line.
pub open spec fn is_line_padding(p: Seq<char>) -> bool {
    forall|m: int| 0 <= m < p.len() ==> is_space(#[trigger] p[m]) && p[m] != '\n'
}

/// Lines of code, each with whitespace of its own after it.
pub open spec fn is_padded_code(lines: Seq<Seq<char>>, pads: Seq<Seq<char>>) -> bool {
    &&& lines.len() >= 1
    &&& pads.len() == lines.len()
    &&& forall|i: int| 0 <= i < lines.len() ==> is_code_line(#[trigger] lines[i])
    &&& forall|i: int| 0 <= i < pads.len() ==> is_line_padding(#[trigger] pads[i])
}

/// Each line followed by its padding.
pub open spec fn padded_rows(lines: Seq<Seq<char>>, pads: Seq<Seq<char>>) -> Seq<Seq<char>> {
    Seq::new(lines.len(), |i: int| lines[i] + pads[i])
}

/// Where row `i` starts once `rows` are joined by line feeds.
pub open spec fn row_start(rows: Seq<Seq<char>>, i: int) -> int
    decreases i,
{
    if i <= 0 {
        0
    } else {
        row_start(rows, i - 1) + rows[i - 1].len() + 1
    }
}

proof fn lemma_row_start_front(rows: Seq<Seq<char>>, i: int)
    requires
        0 <= i < rows.len(),
    ensures
        row_start(rows.drop_last(), i) == row_start(rows, i),
    decreases i,
{
    if i > 0 {
        lemma_row_start_front(rows, i - 1);
        assert(rows.drop_last()[i - 1] == rows[i - 1]);
    }
}

proof fn lemma_join_row(rows: Seq<Seq<char>>, i: int)
    requires
        0 <= i < rows.len(),
    ensures
        join_lines(rows).len() == row_start(rows, rows.len() - 1) + rows.last().len(),
        0 <= row_start(rows, i),
        row_start(rows, i) + rows[i].len() <= join_lines(rows).len(),
        forall|m: int|
            0 <= m < rows[i].len() ==> join_lines(rows)[row_start(rows, i) + m] == #[trigger] rows[i][m],
        i < rows.len() - 1 ==> join_lines(rows)[row_start(rows, i) + rows[i].len()] == '\n',
    decreases rows.len(),
{
    let n = rows.len() as int;
    let t = join_lines(rows);
    if n == 1 {
        assert(t == rows[0]);
        assert(row_start(rows, 0) == 0);
    } else {
        let front = rows.drop_last();
        let jf = join_lines(front);
        assert(t == jf + seq!['\n'] + rows.last());
        lemma_row_start_front(rows, n - 2);
        lemma_join_row(front, n - 2);
        assert(front.last() == rows[n - 2]);
        assert(jf.len() == row_start(rows, n - 2) + rows[n - 2].len());
        assert(row_start(rows, n - 1) == jf.len() + 1);
        if i < n - 1 {
            lemma_join_row(front, i);
            lemma_row_start_front(rows, i);
            assert(front[i] == rows[i]);
            let a = row_start(rows, i);
            assert forall|m: int| 0 <= m < rows[i].len() implies t[a + m] == #[trigger] rows[i][m] by {
                assert(jf[row_start(front, i) + m] == front[i][m]);
            }
        } else {
            let a = row_start(rows, i);
            assert forall|m: int| 0 <= m < rows[i].len() implies t[a + m] == #[trigger] rows[i][m] by {
                assert(rows.last() == rows[i]);
            }
        }
    }
}

proof fn lemma_code_run_exact(t: Seq<char>, i: int, q: int)
    requires
        0 <= i <= q <= t.len(),
        forall|m: int| i <= m < q ==> is_code_char(#[trigger] t[m]),
        q < t.len() ==> !is_code_char(t[q]),
    ensures
        code_run_end(t, i) == q,
    decreases q - i,
{
    if i < q {
        lemma_code_run_exact(t, i + 1, q);
    }
}

proof fn lemma_space_run_exact(t: Seq<char>, i: int, q: int)
    requires
        0 <= i <= q <= t.len(),
        forall|m: int| i <= m < q ==> is_space(#[trigger] t[m]),
        q < t.len() ==> !is_space(t[q]),
    ensures
        space_run_end(t, i) == q,
    decreases q - i,
{
    if i < q {
        lemma_space_run_exact(t, i + 1, q);
    }
}

proof fn lemma_block_from_padded_row(
    t: Seq<char>,
    lines: Seq<Seq<char>>,
    pads: Seq<Seq<char>>,
    i: int,
)
    requires
        is_padded_code(lines, pads),
        t == join_lines(padded_rows(lines, pads)),
        0 <= i < lines.len(),
    ensures
        block_end(t, row_start(padded_rows(lines, pads), i)) == t.len(),
    decreases lines.len() - i,
{
    let rows = padded_rows(lines, pads);
    let n = rows.len() as int;
    let p = row_start(rows, i);
    let l = lines[i];
    let pd = pads[i];
    assert(rows[i] == l + pd);
    let e = p + rows[i].len();
    lemma_join_row(rows, i);
    assert(is_code_line(l));
    assert(is_line_padding(pd));
    assert forall|m: int| p <= m < p + l.len() implies is_code_char(#[trigger] t[m]) by {
        assert(t[p + (m - p)] == rows[i][m - p]);
        assert(rows[i][m - p] == l[m - p]);
    }
    assert forall|m: int| p + l.len() <= m < e implies is_space(#[trigger] t[m]) && t[m] != '\n' by {
        assert(t[p + (m - p)] == rows[i][m - p]);
        assert(rows[i][m - p] == pd[m - p - l.len()]);
    }
    if i < n - 1 {
        assert(t[e] == '\n');
        let q = row_start(rows, i + 1);
        assert(q == e + 1);
        assert(rows[i + 1] == lines[i + 1] + pads[i + 1]);
        assert(is_code_line(lines[i + 1]));
        lemma_join_row(rows, i + 1);
        assert(t[q + 0] == rows[i + 1][0]);
        assert(q < t.len());
        lemma_code_run_exact(t, p, p + l.len());
        lemma_space_run_exact(t, p + l.len(), q);
        lemma_block_from_padded_row(t, lines, pads, i + 1);
    } else {
        assert(e == t.len());
        lemma_code_run_exact(t, p, p + l.len());
        lemma_space_run_exact(t, p + l.len(), e);
    }
}

proof fn lemma_split_join(rows: Seq<Seq<char>>)
    requires
        rows.len() >= 1,
        forall|i: int, m: int|
            0 <= i < rows.len() && 0 <= m < rows[i].len() ==> #[trigger] rows[i][m] != '\n',
    ensures
        split_newlines(join_lines(rows)) == rows,
    decreases rows.len(),
{
    let n = rows.len() as int;
    let last = rows.last();
    assert forall|m: int| 0 <= m < last.len() implies #[trigger] last[m] != '\n' by {
        assert(rows[n - 1][m] != '\n');
    }
    if n == 1 {
        let e = Seq::<char>::empty();
        assert(split_newlines(e) == seq![e]);
        lemma_split_append(e, last);
        assert(e + last =~= last);
        assert(join_lines(rows) == rows[0]);
        assert(seq![e].update(0, e + last) =~= rows);
    } else {
        let front = rows.drop_last();
        assert forall|i: int, m: int| 0 <= i < front.len() && 0 <= m < front[i].len() implies #[trigger] front[i][m]
            != '\n' by {
            assert(front[i] == rows[i]);
        }
        lemma_split_join(front);
        let jf = join_lines(front);
        let with_nl = jf + seq!['\n'];
        assert(with_nl.drop_last() =~= jf);
        assert(split_newlines(with_nl) == front.push(Seq::<char>::empty()));
        lemma_split_append(with_nl, last);
        assert(join_lines(rows) == with_nl + last);
        assert(Seq::<char>::empty() + last =~= last);
        assert(front.push(Seq::<char>::empty()).update(n - 1, Seq::<char>::empty() + last) =~= rows);
    }
}

proof fn lemma_trim_end_padding(x: Seq<char>, p: Seq<char>)
    requires
        forall|m: int| 0 <= m < p.len() ==> is_space(#[trigger] p[m]),
    ensures
        trim_end(x + p) == trim_end(x),
    decreases p.len(),
{
    if p.len() == 0 {
        assert(x + p =~= x);
    } else {
        let p0 = p.drop_last();
        assert((x + p).drop_last() =~= x + p0);
        assert((x + p).last() == p[p.len() - 1]);
        lemma_trim_end_padding(x, p0);
    }
}

/// Padded lines of code joined by line feeds are read back as the lines.
proof fn lemma_padded_code_selected(lines: Seq<Seq<char>>, pads: Seq<Seq<char>>, max_num_lines: nat)
    requires
        is_padded_code(lines, pads),
        lines.len() <= max_num_lines,
    ensures
        first_code_from(join_lines(padded_rows(lines, pads)), 0) < join_lines(
            padded_rows(lines, pads),
        ).len(),
        selected_lines(join_lines(padded_rows(lines, pads)), max_num_lines) == lines,
{
    let rows = padded_rows(lines, pads);
    let t = join_lines(rows);
    let n = rows.len() as int;
    assert(rows[0] == lines[0] + pads[0]);
    assert(is_code_line(lines[0]));
    lemma_join_row(rows, 0);
    assert(row_start(rows, 0) == 0);
    assert(t[row_start(rows, 0) + 0] == rows[0][0]);
    assert(first_code_from(t, 0) == 0);
    lemma_block_from_padded_row(t, lines, pads, 0);
    assert(t.subrange(0, t.len() as int) =~= t);
    assert forall|i: int, m: int| 0 <= i < rows.len() && 0 <= m < rows[i].len() implies #[trigger] rows[i][m]
        != '\n' by {
        assert(rows[i] == lines[i] + pads[i]);
        assert(is_code_line(lines[i]));
        assert(is_line_padding(pads[i]));
        if m < lines[i].len() {
            assert(is_code_char(lines[i][m]));
        } else {
            assert(pads[i][m - lines[i].len()] != '\n');
        }
    }
    lemma_split_join(rows);
    assert(rows.last() == rows[n - 1]);
    assert(rows[n - 1] == lines[n - 1] + pads[n - 1]);
    assert(is_code_line(lines[n - 1]));
    assert(block_lines(t) == rows);
    assert forall|i: int| 0 <= i < rows.len() implies trim(#[trigger] rows[i]) == lines[i] by {
        let l = lines[i];
        let x = l + pads[i];
        assert(rows[i] == x);
        assert(is_code_line(l));
        assert(is_line_padding(pads[i]));
        assert(x[0] == l[0]);
        assert(trim_start(x) == x);
        lemma_trim_end_padding(l, pads[i]);
        assert(l.last() == l[l.len() - 1]);
        assert(trim_end(l) == l);
    }
    let trimmed = block_lines(t).map_values(|l: Seq<char>| trim(l));
    assert(trimmed =~= lines);
    assert(selected_lines(t, max_num_lines) == lines);
}

/// Rectangular text is read back as it is: `n` lines of code characters, all `w`
/// long, each followed by whitespace that ends no line, joined by line feeds, with
/// `1 <= n <= max_num_lines` and `w <= max_line_length`, give the grid of width
/// `w` whose characters are the lines concatenated, with no separators.
pub proof fn lemma_rectangular_text_parses(
    lines: Seq<Seq<char>>,
    pads: Seq<Seq<char>>,
    w: nat,
    max_line_length: nat,
    max_num_lines: nat,
)
    requires
        is_padded_code(lines, pads),
        lines.len() <= max_num_lines,
        w <= max_line_length,
        forall|i: int| 0 <= i < lines.len() ==> (#[trigger] lines[i]).len() == w,
    ensures
        parse_outcome(join_lines(padded_rows(lines, pads)), max_line_length, max_num_lines)
            == Ok::<(Seq<char>, nat), ParseError>((lines.flatten(), w)),
{
    lemma_padded_code_selected(lines, pads, max_num_lines);
}

/// Lines of code joined by line feeds (each followed by whitespace that ends no
/// line), at most `max_num_lines` of them and the first no longer than
/// `max_line_length`, are refused as mismatched as soon as two lengths differ:
/// never cut or padded into shape.
pub proof fn lemma_mismatched_lines_refused(
    lines: Seq<Seq<char>>,
    pads: Seq<Seq<char>>,
    max_line_length: nat,
    max_num_lines: nat,
)
    requires
        is_padded_code(lines, pads),
        lines.len() <= max_num_lines,
        lines[0].len() <= max_line_length,
        exists|i: int| 0 <= i < lines.len() && #[trigger] lines[i].len() != lines[0].len(),
    ensures
        parse_outcome(join_lines(padded_rows(lines, pads)), max_line_length, max_num_lines)
            == Err::<(Seq<char>, nat), ParseError>(ParseError::MismatchLineLengths),
{
    lemma_padded_code_selected(lines, pads, max_num_lines);
}

proof fn lemma_flatten_rows(lines: Seq<Seq<char>>, w: nat)
    requires
        forall|i: int| 0 <= i < lines.len() ==> (#[trigger] lines[i]).len() == w,
    ensures
        lines.flatten().len() == lines.len() * w,
        forall|i: int|
            0 <= i < lines.len() ==> lines.flatten().subrange(i * w, i * w + w) == #[trigger] lines[i],
    decreases lines.len(),
{
    lemma_flatten_uniform(lines, w);
    if lines.len() > 0 {
        let rest = lines.drop_first();
        assert forall|i: int| 0 <= i < rest.len() implies (#[trigger] rest[i]).len() == w by {
            assert(rest[i] == lines[i + 1]);
        }
        lemma_flatten_rows(rest, w);
        let f = lines.flatten();
        assert(f == lines.first() + rest.flatten());
        assert(lines.first() == lines[0]);
        assert forall|i: int| 0 <= i < lines.len() implies f.subrange(i * w, i * w + w)
            == #[trigger] lines[i] by {
            if i == 0 {
                assert(f.subrange(0, w as int) =~= lines[0]);
                assert(0 * w == 0);
            } else {
                assert(i * w == (i - 1) * w + w) by (nonlinear_arith);
                assert((i - 1) * w + w <= rest.len() * w) by (nonlinear_arith)
                    requires
                        i - 1 < rest.len(),
                ;
                assert(rest[i - 1] == lines[i]);
                assert(rest.flatten().subrange((i - 1) * w, (i - 1) * w + w) == lines[i]);
                assert((i - 1) * w >= 0) by (nonlinear_arith)
                    requires
                        i >= 1,
                ;
                assert(f.subrange(i * w, i * w + w) =~= rest.flatten().subrange(
                    (i - 1) * w,
                    (i - 1) * w + w,
                ));
            }
        }
    }
}

/// A grid whose characters are `lines` concatenated, all as long as its width, is
/// rectangular and has those lines as its rows, in order.
pub proof fn lemma_grid_rows(src: OrcaSource, lines: Seq<Seq<char>>)
    requires
        src.width >= 1,
        src.data@ == lines.flatten(),
        forall|i: int| 0 <= i < lines.len() ==> (#[trigger] lines[i]).len() == src.width,
    ensures
        src.wf(),
        src.rows() == lines,
{
    let w = src.width as nat;
    lemma_flatten_rows(lines, w);
    lemma_mod_multiples_basic(lines.len() as int, w as int);
    let n = lines.len() as int;
    assert((n * w) / (w as int) == n) by (nonlinear_arith)
        requires
            w >= 1,
            n >= 0,
    ;
    assert(src.rows() =~= lines);
}

/// The rows of a grid read from rectangular text are its lines, in order.
pub proof fn lemma_rectangular_text_rows(
    src: OrcaSource,
    lines: Seq<Seq<char>>,
    pads: Seq<Seq<char>>,
    max_line_length: nat,
    max_num_lines: nat,
)
    requires
        is_padded_code(lines, pads),
        lines.len() <= max_num_lines,
        lines[0].len() <= max_line_length,
        forall|i: int| 0 <= i < lines.len() ==> (#[trigger] lines[i]).len() == lines[0].len(),
        grid_result(Ok(src)) == parse_outcome(
            join_lines(padded_rows(lines, pads)),
            max_line_length,
            max_num_lines,
        ),
    ensures
        src.rows() == lines,
{
    lemma_rectangular_text_parses(lines, pads, lines[0].len(), max_line_length, max_num_lines);
    lemma_grid_rows(src, lines);
}

} // verus!
