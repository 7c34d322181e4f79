use vstd::prelude::*;
use vstd::string::StrSliceExecFns;

verus! {

/// Relies on `String::push`: appends one character to the string.
#[verifier::external_body]
pub(crate) fn push_char(s: &mut String, c: char)
    ensures
        final(s)@ == old(s)@.push(c),
{
    s.push(c);
}

/// A fresh string holding exactly the given characters.
pub(crate) fn chars_to_string(v: &Vec<char>) -> (s: String)
    ensures
        s@ == v@,
{
    let mut s = String::new();
    let mut i: usize = 0;
    while i < v.len()
        invariant
            i <= v.len(),
            s@ == v@.subrange(0, i as int),
        decreases v.len() - i,
    {
        push_char(&mut s, v[i]);
        i = i + 1;
    }
    proof {
        assert(v@.subrange(0, v@.len() as int) =~= v@);
    }
    s
}

/// The characters of a text, one by one.
pub(crate) fn str_to_chars(s: &str) -> (v: Vec<char>)
    ensures
        v@ == s@,
{
    let n = s.unicode_len();
    let mut v: Vec<char> = Vec::new();
    let mut i: usize = 0;
    while i < n
        invariant
            i <= n,
            n == s@.len(),
            v@ == s@.subrange(0, i as int),
        decreases n - i,
    {
        v.push(s.get_char(i));
        proof {
            assert(v@ =~= s@.subrange(0, i + 1));
        }
        i = i + 1;
    }
    proof {
        assert(s@.subrange(0, s@.len() as int) =~= s@);
    }
    v
}

/// Whether a character is alphanumeric in the Unicode sense.
pub uninterp spec fn alnum(c: char) -> bool;

/// Relies on `char::is_alphanumeric`: whether the character is in a
/// Unicode letter or number category; the answer depends on the
/// character alone.
#[verifier::external_body]
pub(crate) fn char_is_alphanumeric(c: char) -> (r: bool)
    ensures
        r == alnum(c),
{
    c.is_alphanumeric()
}

/// The Unicode whitespace characters, the set `char::is_whitespace`
/// recognises.
pub open spec fn is_ws_char(c: char) -> bool {
    c == ' ' || c == '\u{9}' || c == '\u{A}' || c == '\u{B}' || c == '\u{C}' || c == '\u{D}'
        || c == '\u{85}' || c == '\u{A0}' || c == '\u{1680}' || c == '\u{2000}' || c == '\u{2001}'
        || c == '\u{2002}' || c == '\u{2003}' || c == '\u{2004}' || c == '\u{2005}'
        || c == '\u{2006}' || c == '\u{2007}' || c == '\u{2008}' || c == '\u{2009}'
        || c == '\u{200A}' || c == '\u{2028}' || c == '\u{2029}' || c == '\u{202F}'
        || c == '\u{205F}' || c == '\u{3000}'
}

/// Whether a character counts as whitespace.
pub fn is_ws(c: char) -> (r: bool)
    ensures
        r == is_ws_char(c),
{
    c == ' ' || c == '\u{9}' || c == '\u{A}' || c == '\u{B}' || c == '\u{C}' || c == '\u{D}'
        || c == '\u{85}' || c == '\u{A0}' || c == '\u{1680}' || c == '\u{2000}' || c == '\u{2001}'
        || c == '\u{2002}' || c == '\u{2003}' || c == '\u{2004}' || c == '\u{2005}'
        || c == '\u{2006}' || c == '\u{2007}' || c == '\u{2008}' || c == '\u{2009}'
        || c == '\u{200A}' || c == '\u{2028}' || c == '\u{2029}' || c == '\u{202F}'
        || c == '\u{205F}' || c == '\u{3000}'
}

/// The first position at or after `pos` holding a non-whitespace
/// character, or the end of the text.
pub open spec fn skip_ws_from(s: Seq<char>, pos: int) -> int
    decreases s.len() - pos,
{
    if 0 <= pos < s.len() && is_ws_char(s[pos]) {
        skip_ws_from(s, pos + 1)
    } else {
        pos
    }
}

pub proof fn lemma_skip_ws_bounds(s: Seq<char>, pos: int)
    requires
        0 <= pos <= s.len(),
    ensures
        pos <= skip_ws_from(s, pos) <= s.len(),
    decreases s.len() - pos,
{
    if pos < s.len() && is_ws_char(s[pos]) {
        lemma_skip_ws_bounds(s, pos + 1);
    }
}

/// The first position at or after `pos` holding a character that is
/// neither whitespace-short-of-newline, or the end of the text.
pub open spec fn skip_ws_nn_from(s: Seq<char>, pos: int) -> int
    decreases s.len() - pos,
{
    if 0 <= pos < s.len() && is_ws_char(s[pos]) && s[pos] != '\n' {
        skip_ws_nn_from(s, pos + 1)
    } else {
        pos
    }
}

pub proof fn lemma_skip_ws_nn_bounds(s: Seq<char>, pos: int)
    requires
        0 <= pos <= s.len(),
    ensures
        pos <= skip_ws_nn_from(s, pos) <= s.len(),
    decreases s.len() - pos,
{
    if pos < s.len() && is_ws_char(s[pos]) && s[pos] != '\n' {
        lemma_skip_ws_nn_bounds(s, pos + 1);
    }
}

/// The first position at or after `pos` holding a character that is no
/// bracket, or the end of the text.
pub open spec fn skip_brackets_from(s: Seq<char>, pos: int) -> int
    decreases s.len() - pos,
{
    if 0 <= pos < s.len() && (s[pos] == '(' || s[pos] == ')') {
        skip_brackets_from(s, pos + 1)
    } else {
        pos
    }
}

/// Whether the characters of `p` stand in `s` starting at `pos`.
pub open spec fn has_prefix(s: Seq<char>, pos: int, p: Seq<char>) -> bool {
    0 <= pos && pos + p.len() <= s.len() && s.subrange(pos, pos + p.len()) == p
}

/// The first position at or after `pos` holding a character that cannot
/// stand in an identifier, or the end of the text.
pub open spec fn ident_end(s: Seq<char>, pos: int) -> int
    decreases s.len() - pos,
{
    if 0 <= pos < s.len() && (alnum(s[pos]) || s[pos] == '_') {
        ident_end(s, pos + 1)
    } else {
        pos
    }
}

pub proof fn lemma_ident_end_bounds(s: Seq<char>, pos: int)
    requires
        0 <= pos <= s.len(),
    ensures
        pos <= ident_end(s, pos) <= s.len(),
    decreases s.len() - pos,
{
    if pos < s.len() && (alnum(s[pos]) || s[pos] == '_') {
        lemma_ident_end_bounds(s, pos + 1);
    }
}

/// The cursor position after one identifier is consumed from `pos`:
/// its characters, then one following colon or comma if present.
pub open spec fn ident_stop(s: Seq<char>, pos: int) -> int {
    let e = ident_end(s, pos);
    if e < s.len() && (s[e] == ':' || s[e] == ',') {
        e + 1
    } else {
        e
    }
}

/// The first position at or after `pos` holding a bracket, or the end of
/// the text.
pub open spec fn token_end(s: Seq<char>, pos: int) -> int
    decreases s.len() - pos,
{
    if 0 <= pos < s.len() && s[pos] != '(' && s[pos] != ')' {
        token_end(s, pos + 1)
    } else {
        pos
    }
}

pub proof fn lemma_token_end_bounds(s: Seq<char>, pos: int)
    requires
        0 <= pos <= s.len(),
    ensures
        pos <= token_end(s, pos) <= s.len(),
    decreases s.len() - pos,
{
    if pos < s.len() && s[pos] != '(' && s[pos] != ')' {
        lemma_token_end_bounds(s, pos + 1);
    }
}

/// The identifiers of a comma-separated argument list read from `pos`,
/// and the position the cursor is left at.
pub open spec fn args_fold(s: Seq<char>, pos: int, acc: Seq<Seq<char>>) -> (Seq<Seq<char>>, int)
    decreases s.len() - pos
        when 0 <= pos <= s.len()
        via args_fold_decreases
{
    let pa = skip_ws_nn_from(s, pos);
    let p1 = skip_ws_from(s, pa);
    let e = ident_end(s, p1);
    let p2 = ident_stop(s, p1);
    let p3 = skip_ws_nn_from(s, p2);
    let acc2 = acc.push(s.subrange(p1, e));
    if p3 < s.len() && s[p3] == ',' {
        args_fold(s, p3 + 1, acc2)
    } else {
        (acc2, p3)
    }
}

#[via_fn]
proof fn args_fold_decreases(s: Seq<char>, pos: int, acc: Seq<Seq<char>>) {
    lemma_skip_ws_nn_bounds(s, pos);
    let pa = skip_ws_nn_from(s, pos);
    lemma_skip_ws_bounds(s, pa);
    let p1 = skip_ws_from(s, pa);
    lemma_ident_end_bounds(s, p1);
    let p2 = ident_stop(s, p1);
    lemma_skip_ws_nn_bounds(s, p2);
}

/// The first position at or after `k` holding a newline, or the end of
/// the text.
pub open spec fn line_end(s: Seq<char>, k: int) -> int
    decreases s.len() - k,
{
    if 0 <= k < s.len() && s[k] != '\n' {
        line_end(s, k + 1)
    } else {
        k
    }
}

pub proof fn lemma_line_end_bounds(s: Seq<char>, k: int)
    requires
        0 <= k <= s.len(),
    ensures
        k <= line_end(s, k) <= s.len(),
    decreases s.len() - k,
{
    if k < s.len() && s[k] != '\n' {
        lemma_line_end_bounds(s, k + 1);
    }
}

/// A run of non-newline characters bounded by a newline or the end ends
/// exactly at that bound.
pub proof fn lemma_line_end_at(s: Seq<char>, k: int, e: int)
    requires
        0 <= k <= e <= s.len(),
        forall|x: int| k <= x < e ==> s[x] != '\n',
        e == s.len() || s[e] == '\n',
    ensures
        line_end(s, k) == e,
    decreases e - k,
{
    if k < e {
        lemma_line_end_at(s, k + 1, e);
    }
}

/// A line with its trailing carriage return, if any, removed.
pub open spec fn strip_cr(l: Seq<char>) -> Seq<char> {
    if l.len() > 0 && l.last() == '\r' {
        l.drop_last()
    } else {
        l
    }
}

/// The lines of a text: split at each newline, each split-off line
/// stripped of a trailing carriage return, and a final fragment kept
/// only when it is not empty.
pub open spec fn split_lines(s: Seq<char>) -> Seq<Seq<char>>
    decreases s.len()
        via split_lines_decreases
{
    if s.len() == 0 {
        Seq::empty()
    } else {
        let i = line_end(s, 0);
        if i == s.len() {
            seq![s]
        } else {
            seq![strip_cr(s.subrange(0, i))] + split_lines(s.skip(i + 1))
        }
    }
}

#[via_fn]
proof fn split_lines_decreases(s: Seq<char>) {
    if s.len() > 0 {
        lemma_line_end_bounds(s, 0);
    }
}

/// The first position at or before `e` with no whitespace just before
/// it, scanning backwards.
pub open spec fn rskip_ws(s: Seq<char>, e: int) -> int
    decreases e,
{
    if 0 < e <= s.len() && is_ws_char(s[e - 1]) {
        rskip_ws(s, e - 1)
    } else {
        e
    }
}

pub proof fn lemma_rskip_ws_bounds(s: Seq<char>, e: int)
    requires
        0 <= e <= s.len(),
    ensures
        0 <= rskip_ws(s, e) <= e,
    decreases e,
{
    if 0 < e && is_ws_char(s[e - 1]) {
        lemma_rskip_ws_bounds(s, e - 1);
    }
}

/// The text with leading and trailing whitespace removed.
pub open spec fn trim_spec(s: Seq<char>) -> Seq<char> {
    let a = skip_ws_from(s, 0);
    let b = rskip_ws(s, s.len() as int);
    if b <= a {
        Seq::empty()
    } else {
        s.subrange(a, b)
    }
}

/// Whether the characters of `p` stand somewhere in `s`.
pub open spec fn has_sub(s: Seq<char>, p: Seq<char>) -> bool {
    exists|i: int| 0 <= i && i + p.len() <= s.len() && #[trigger] s.subrange(i, i + p.len()) == p
}

/// The method-source fold: lines are accumulated into the current
/// fragment until a line holding `Function` starts a new fragment; a
/// line that trims to a closing brace ends the scan; the fragment under
/// construction is flushed at the end.
pub open spec fn pm_fold(
    lines: Seq<Seq<char>>,
    k: int,
    func: Seq<char>,
    acc: Seq<Seq<char>>,
) -> Seq<Seq<char>>
    decreases lines.len() - k
        when 0 <= k <= lines.len()
{
    if k == lines.len() {
        acc.push(func)
    } else {
        let line = lines[k];
        if trim_spec(line) == seq!['}'] {
            acc.push(func)
        } else if has_sub(line, "Function"@) {
            pm_fold(lines, k + 1, line + seq!['\n'], acc.push(func))
        } else {
            pm_fold(lines, k + 1, func + line + seq!['\n'], acc)
        }
    }
}

/// What `parse_methods` returns: the non-empty fragments of the fold
/// over the text's lines.
pub open spec fn parse_methods_spec(s: Seq<char>) -> Seq<Seq<char>> {
    pm_fold(split_lines(s), 0, Seq::empty(), Seq::empty()).filter(|f: Seq<char>| f.len() > 0)
}

/// A cursor over a source text, by character position.
#[derive(Debug, Clone)]
pub struct Parser {
    src: Vec<char>,
    pos: usize,
}

/// The mathematical value of a `Parser`.
pub struct ParserV {
    pub src: Seq<char>,
    pub pos: int,
}

impl View for Parser {
    type V = ParserV;

    closed spec fn view(&self) -> ParserV {
        ParserV { src: self.src@, pos: self.pos as int }
    }
}

impl Parser {
    /// A parser at the start of the given text.
    pub fn new(src: &str) -> (p: Parser)
        ensures
            p@.src == src@,
            p@.pos == 0,
    {
        let n = src.unicode_len();
        let mut v: Vec<char> = Vec::new();
        let mut i: usize = 0;
        while i < n
            invariant
                i <= n,
                n == src@.len(),
                v@ == src@.subrange(0, i as int),
            decreases n - i,
        {
            v.push(src.get_char(i));
            proof {
                assert(v@ =~= src@.subrange(0, i + 1));
            }
            i = i + 1;
        }
        proof {
            assert(src@.subrange(0, src@.len() as int) =~= src@);
        }
        Parser { src: v, pos: 0 }
    }

    /// The unread rest of the text.
    pub fn remaining(&self) -> (r: String)
        requires
            self@.pos <= self@.src.len(),
        ensures
            r@ == self@.src.skip(self@.pos),
    {
        let mut v: Vec<char> = Vec::new();
        let mut i: usize = self.pos;
        while i < self.src.len()
            invariant
                self@.pos <= i <= self@.src.len(),
                v@ == self@.src.subrange(self@.pos, i as int),
            decreases self.src.len() - i,
        {
            v.push(self.src[i]);
            proof {
                assert(v@ =~= self@.src.subrange(self@.pos, i + 1));
            }
            i = i + 1;
        }
        proof {
            assert(self@.src.skip(self@.pos) =~= self@.src.subrange(
                self@.pos,
                self@.src.len() as int,
            ));
        }
        chars_to_string(&v)
    }

    /// How many characters the text holds.
    pub fn len(&self) -> (r: usize)
        ensures
            r == self@.src.len(),
    {
        self.src.len()
    }

    /// Advances the cursor past any whitespace.
    pub fn consume_whitespace(&mut self)
        requires
            old(self)@.pos <= old(self)@.src.len(),
        ensures
            final(self)@.src == old(self)@.src,
            final(self)@.pos == skip_ws_from(old(self)@.src, old(self)@.pos),
    {
        let ghost s = self@.src;
        let ghost p0 = self@.pos;
        while self.pos < self.src.len() && is_ws(self.src[self.pos])
            invariant
                self@.src == s,
                0 <= self@.pos <= s.len(),
                skip_ws_from(s, p0) == skip_ws_from(s, self@.pos),
            decreases s.len() - self@.pos,
        {
            self.pos = self.pos + 1;
        }
    }

    /// Advances the cursor past any whitespace and then past any run of
    /// brackets.
    pub fn consume_whitespace_or_brackets(&mut self)
        requires
            old(self)@.pos <= old(self)@.src.len(),
        ensures
            final(self)@.src == old(self)@.src,
            final(self)@.pos == skip_brackets_from(
                old(self)@.src,
                skip_ws_from(old(self)@.src, old(self)@.pos),
            ),
    {
        self.consume_whitespace();
        let ghost s = self@.src;
        let ghost p0 = self@.pos;
        proof {
            lemma_skip_ws_bounds(s, old(self)@.pos);
        }
        while self.pos < self.src.len() && (self.src[self.pos] == '(' || self.src[self.pos]
            == ')')
            invariant
                self@.src == s,
                0 <= self@.pos <= s.len(),
                skip_brackets_from(s, p0) == skip_brackets_from(s, self@.pos),
            decreases s.len() - self@.pos,
        {
            self.pos = self.pos + 1;
        }
    }

    /// Advances the cursor past whitespace, stopping at a newline.
    pub fn consume_whitespace_no_newline(&mut self)
        requires
            old(self)@.pos <= old(self)@.src.len(),
        ensures
            final(self)@.src == old(self)@.src,
            final(self)@.pos == skip_ws_nn_from(old(self)@.src, old(self)@.pos),
    {
        let ghost s = self@.src;
        let ghost p0 = self@.pos;
        while self.pos < self.src.len() && is_ws(self.src[self.pos]) && self.src[self.pos] != '\n'
            invariant
                self@.src == s,
                0 <= self@.pos <= s.len(),
                skip_ws_nn_from(s, p0) == skip_ws_nn_from(s, self@.pos),
            decreases s.len() - self@.pos,
        {
            self.pos = self.pos + 1;
        }
    }

    /// Whether the given characters stand at the cursor.
    fn prefix_matches(&self, keyword: &str) -> (r: bool)
        requires
            self@.pos <= self@.src.len(),
        ensures
            r == has_prefix(self@.src, self@.pos, keyword@),
    {
        let klen = keyword.unicode_len();
        let n = self.src.len();
        if klen > n - self.pos {
            return false;
        }
        let mut i: usize = 0;
        while i < klen
            invariant
                i <= klen,
                klen == keyword@.len(),
                self@.src.len() <= usize::MAX,
                self@.pos + klen <= self@.src.len(),
                forall|x: int| 0 <= x < i ==> self@.src[self@.pos + x] == keyword@[x],
            decreases klen - i,
        {
            if self.src[self.pos + i] != keyword.get_char(i) {
                proof {
                    if has_prefix(self@.src, self@.pos, keyword@) {
                        assert(self@.src.subrange(self@.pos, self@.pos + keyword@.len())[i as int]
                            == self@.src[self@.pos + i]);
                    }
                }
                return false;
            }
            i = i + 1;
        }
        proof {
            assert(self@.src.subrange(self@.pos, self@.pos + keyword@.len()) =~= keyword@);
        }
        true
    }

    /// Consumes the given keyword at the cursor, or reports it missing
    /// and leaves the cursor in place.
    pub fn consume_keyword(&mut self, keyword: &str) -> (r: Result<(), String>)
        requires
            old(self)@.pos <= old(self)@.src.len(),
        ensures
            final(self)@.src == old(self)@.src,
            has_prefix(old(self)@.src, old(self)@.pos, keyword@) ==> r is Ok && final(self)@.pos
                == old(self)@.pos + keyword@.len(),
            !has_prefix(old(self)@.src, old(self)@.pos, keyword@) ==> final(self)@.pos == old(
                self,
            )@.pos && (r matches Err(m) && m@ == "Expected keyword: "@ + keyword@),
    {
        let klen = keyword.unicode_len();
        let n = self.src.len();
        if self.prefix_matches(keyword) {
            proof {
                assert(self@.pos + klen <= n);
            }
            self.pos = self.pos + klen;
            Ok(())
        } else {
            let mut m = String::new();
            m.append("Expected keyword: ");
            m.append(keyword);
            proof {
                assert(Seq::<char>::empty() + "Expected keyword: "@ + keyword@
                    =~= "Expected keyword: "@ + keyword@);
            }
            Err(m)
        }
    }

    /// Consumes the given brace after any whitespace, or reports it
    /// missing, leaving the cursor after the skipped whitespace.
    pub fn consume_brace(&mut self, brace: char) -> (r: Result<(), String>)
        requires
            old(self)@.pos <= old(self)@.src.len(),
        ensures
            final(self)@.src == old(self)@.src,
            ({
                let p1 = skip_ws_from(old(self)@.src, old(self)@.pos);
                if p1 < old(self)@.src.len() && old(self)@.src[p1] == brace {
                    r is Ok && final(self)@.pos == p1 + 1
                } else {
                    (r matches Err(m) && m@ == "Expected brace: "@.push(brace))
                        && final(self)@.pos == p1
                }
            }),
    {
        self.consume_whitespace();
        proof {
            lemma_skip_ws_bounds(old(self)@.src, old(self)@.pos);
        }
        if self.pos < self.src.len() && self.src[self.pos] == brace {
            self.pos = self.pos + 1;
            Ok(())
        } else {
            let mut m = String::new();
            m.append("Expected brace: ");
            push_char(&mut m, brace);
            proof {
                assert((Seq::<char>::empty() + "Expected brace: "@).push(brace)
                    =~= "Expected brace: "@.push(brace));
            }
            Err(m)
        }
    }

    /// Consumes one identifier after any whitespace: a run of
    /// alphanumerics and underscores, plus one following colon or comma
    /// if present; the identifier may be empty.
    pub fn consume_identifier(&mut self) -> (r: Result<String, String>)
        requires
            old(self)@.pos <= old(self)@.src.len(),
        ensures
            final(self)@.src == old(self)@.src,
            ({
                let s = old(self)@.src;
                let p1 = skip_ws_from(s, old(self)@.pos);
                (r matches Ok(id) && id@ == s.subrange(p1, ident_end(s, p1))) && final(self)@.pos
                    == ident_stop(s, p1)
            }),
    {
        self.consume_whitespace();
        let ghost s = self@.src;
        let ghost p1 = self@.pos;
        proof {
            lemma_skip_ws_bounds(s, old(self)@.pos);
        }
        let mut ident_chars: Vec<char> = Vec::new();
        proof {
            assert(ident_chars@ =~= s.subrange(p1, p1));
        }
        while self.pos < self.src.len()
            invariant_except_break
                self@.src == s,
                0 <= p1 <= self@.pos <= s.len(),
                ident_chars@ == s.subrange(p1, self@.pos),
                ident_end(s, p1) == ident_end(s, self@.pos),
            ensures
                self@.src == s,
                ident_chars@ == s.subrange(p1, ident_end(s, p1)),
                self@.pos == ident_stop(s, p1),
            decreases s.len() - self@.pos,
        {
            let c = self.src[self.pos];
            let ghost pos_old = self@.pos;
            let an = char_is_alphanumeric(c);
            if an || c == '_' {
                ident_chars.push(c);
                self.pos = self.pos + 1;
                proof {
                    assert(ident_chars@ =~= s.subrange(p1, self@.pos));
                }
            } else if c == ':' {
                self.pos = self.pos + 1;
                break ;
            } else if c == ',' {
                self.pos = self.pos + 1;
                break ;
            } else {
                break ;
            }
        }
        Ok(chars_to_string(&ident_chars))
    }

    /// Consumes a comma-separated identifier list.
    fn parse_arguments(&mut self) -> (r: Vec<String>)
        requires
            old(self)@.pos <= old(self)@.src.len(),
        ensures
            final(self)@.src == old(self)@.src,
            ({
                let folded = args_fold(old(self)@.src, old(self)@.pos, Seq::empty());
                r@.map_values(|x: String| x@) == folded.0 && final(self)@.pos == folded.1
            }),
    {
        let ghost s = self@.src;
        let ghost pos0 = self@.pos;
        let mut args: Vec<String> = Vec::new();
        proof {
            assert(args@.map_values(|x: String| x@) =~= Seq::<Seq<char>>::empty());
        }
        loop
            invariant_except_break
                self@.src == s,
                0 <= pos0 <= s.len(),
                0 <= self@.pos <= s.len(),
                args_fold(s, pos0, Seq::empty()) == args_fold(
                    s,
                    self@.pos,
                    args@.map_values(|x: String| x@),
                ),
            ensures
                self@.src == s,
                ({
                    let folded = args_fold(s, pos0, Seq::empty());
                    args@.map_values(|x: String| x@) == folded.0 && self@.pos == folded.1
                }),
            decreases s.len() - self@.pos,
        {
            let ghost args0 = args@.map_values(|x: String| x@);
            let ghost p_iter = self@.pos;
            self.consume_whitespace_no_newline();
            proof {
                lemma_skip_ws_nn_bounds(s, p_iter);
            }
            let arg = match self.consume_identifier() {
                Ok(a) => a,
                Err(_) => {
                    proof {
                        assert(false);
                    }
                    break ;
                },
            };
            args.push(arg);
            proof {
                let pa = skip_ws_nn_from(s, p_iter);
                lemma_skip_ws_bounds(s, pa);
                let p1 = skip_ws_from(s, pa);
                lemma_ident_end_bounds(s, p1);
                assert(args@.map_values(|x: String| x@) =~= args0.push(
                    s.subrange(p1, ident_end(s, p1)),
                ));
            }
            self.consume_whitespace_no_newline();
            proof {
                let pa = skip_ws_nn_from(s, p_iter);
                let p1x = skip_ws_from(s, pa);
                lemma_skip_ws_nn_bounds(s, ident_stop(s, p1x));
            }
            if self.pos < self.src.len() && self.src[self.pos] == ',' {
                self.pos = self.pos + 1;
            } else {
                break ;
            }
        }
        args
    }

    /// Consumes a `Function(` header and its argument list, returning
    /// the argument names.
    pub fn parse_function(&mut self) -> (r: Vec<String>)
        requires
            old(self)@.pos <= old(self)@.src.len(),
            ({
                let s = old(self)@.src;
                let p1 = skip_ws_from(s, old(self)@.pos);
                &&& has_prefix(s, p1, "Function"@)
                &&& ({
                    let p2 = skip_ws_from(s, p1 + "Function"@.len());
                    p2 < s.len() && s[p2] == '('
                })
            }),
        ensures
            final(self)@.src == old(self)@.src,
            ({
                let s = old(self)@.src;
                let p1 = skip_ws_from(s, old(self)@.pos);
                let p2 = skip_ws_from(s, p1 + "Function"@.len());
                let p3 = skip_ws_from(s, p2 + 1);
                let folded = args_fold(s, p3, Seq::empty());
                r@.map_values(|x: String| x@) == folded.0 && final(self)@.pos == folded.1
            }),
    {
        self.consume_whitespace();
        proof {
            lemma_skip_ws_bounds(old(self)@.src, old(self)@.pos);
        }
        let kw = self.consume_keyword("Function");
        proof {
            assert(kw is Ok);
        }
        let br = self.consume_brace('(');
        proof {
            let s = old(self)@.src;
            let p1 = skip_ws_from(s, old(self)@.pos);
            let p2 = skip_ws_from(s, p1 + "Function"@.len());
            assert(br is Ok);
        }
        self.consume_whitespace();
        proof {
            lemma_skip_ws_bounds(
                old(self)@.src,
                skip_ws_from(
                    old(self)@.src,
                    skip_ws_from(old(self)@.src, old(self)@.pos) + "Function"@.len(),
                ) + 1,
            );
        }
        self.parse_arguments()
    }

    /// The next raw token: the characters up to the next bracket, which
    /// is consumed; `None` once the text is exhausted.
    pub fn next(&mut self) -> (r: Option<String>)
        requires
            old(self)@.pos <= old(self)@.src.len(),
        ensures
            final(self)@.src == old(self)@.src,
            ({
                let s = old(self)@.src;
                let pos = old(self)@.pos;
                if pos >= s.len() {
                    r is None && final(self)@.pos == pos
                } else {
                    let e = token_end(s, pos);
                    (r matches Some(tok) && tok@ == s.subrange(pos, e)) && final(self)@.pos == (
                    if e < s.len() {
                        e + 1
                    } else {
                        e
                    })
                }
            }),
    {
        if self.pos >= self.src.len() {
            return None;
        }
        let ghost s = self@.src;
        let ghost pos0 = self@.pos;
        let mut token_chars: Vec<char> = Vec::new();
        proof {
            lemma_token_end_bounds(s, pos0);
            assert(token_chars@ =~= s.subrange(pos0, pos0));
        }
        while self.pos < self.src.len()
            invariant_except_break
                self@.src == s,
                0 <= pos0 <= self@.pos <= s.len(),
                token_chars@ == s.subrange(pos0, self@.pos),
                token_end(s, pos0) == token_end(s, self@.pos),
            ensures
                self@.src == s,
                token_chars@ == s.subrange(pos0, token_end(s, pos0)),
                self@.pos == (if token_end(s, pos0) < s.len() {
                    token_end(s, pos0) + 1
                } else {
                    token_end(s, pos0)
                }),
            decreases s.len() - self@.pos,
        {
            let c = self.src[self.pos];
            if c == '(' || c == ')' {
                self.pos = self.pos + 1;
                break ;
            }
            token_chars.push(c);
            self.pos = self.pos + 1;
            proof {
                assert(token_chars@ =~= s.subrange(pos0, self@.pos));
            }
        }
        Some(chars_to_string(&token_chars))
    }
}

/// Whether `Function` stands in `v` starting at `i`.
fn function_at(v: &Vec<char>, i: usize) -> (r: bool)
    requires
        i < v.len(),
    ensures
        r == (i + "Function"@.len() <= v@.len() && v@.subrange(
            i as int,
            i + "Function"@.len(),
        ) == "Function"@),
{
    proof {
        reveal_strlit("Function");
    }
    if v.len() - i < 8 {
        return false;
    }
    let r = v[i] == 'F' && v[i + 1] == 'u' && v[i + 2] == 'n' && v[i + 3] == 'c' && v[i + 4] == 't'
        && v[i + 5] == 'i' && v[i + 6] == 'o' && v[i + 7] == 'n';
    proof {
        if r {
            assert(v@.subrange(i as int, i + 8) =~= "Function"@);
        } else {
            if v@.subrange(i as int, i + 8) == "Function"@ {
                assert(v@[i as int] == "Function"@[0]);
                assert(v@[i + 1] == "Function"@[1]);
                assert(v@[i + 2] == "Function"@[2]);
                assert(v@[i + 3] == "Function"@[3]);
                assert(v@[i + 4] == "Function"@[4]);
                assert(v@[i + 5] == "Function"@[5]);
                assert(v@[i + 6] == "Function"@[6]);
                assert(v@[i + 7] == "Function"@[7]);
            }
        }
    }
    r
}

/// Whether a line mentions `Function`.
fn contains_function(v: &Vec<char>) -> (r: bool)
    ensures
        r == has_sub(v@, "Function"@),
{
    proof {
        reveal_strlit("Function");
    }
    let mut i: usize = 0;
    while i < v.len()
        invariant
            i <= v@.len(),
            forall|x: int|
                0 <= x < i ==> !(x + "Function"@.len() <= v@.len() && #[trigger] v@.subrange(
                    x,
                    x + "Function"@.len(),
                ) == "Function"@),
            "Function"@.len() == 8,
        decreases v.len() - i,
    {
        if function_at(v, i) {
            return true;
        }
        i = i + 1;
    }
    proof {
        if has_sub(v@, "Function"@) {
            let x = choose|x: int|
                0 <= x && x + "Function"@.len() <= v@.len() && #[trigger] v@.subrange(
                    x,
                    x + "Function"@.len(),
                ) == "Function"@;
            assert(x < v@.len());
        }
    }
    false
}

/// Whether a line trims to a single closing brace.
fn trims_to_close_brace(v: &Vec<char>) -> (r: bool)
    ensures
        r == (trim_spec(v@) == seq!['}']),
{
    let ghost s = v@;
    let mut a: usize = 0;
    while a < v.len() && is_ws(v[a])
        invariant
            0 <= a <= s.len(),
            s == v@,
            skip_ws_from(s, 0) == skip_ws_from(s, a as int),
        decreases s.len() - a,
    {
        a = a + 1;
    }
    let mut b: usize = v.len();
    while b > 0 && is_ws(v[b - 1])
        invariant
            0 <= b <= s.len(),
            s == v@,
            rskip_ws(s, s.len() as int) == rskip_ws(s, b as int),
        decreases b,
    {
        b = b - 1;
    }
    proof {
        lemma_skip_ws_bounds(s, 0);
        lemma_rskip_ws_bounds(s, s.len() as int);
    }
    let r = b > a && b - a == 1 && v[a] == '}';
    proof {
        if r {
            assert(trim_spec(s) =~= seq!['}']);
        } else {
            if trim_spec(s) == seq!['}'] {
                assert(trim_spec(s).len() == 1);
                if b > a {
                    assert(trim_spec(s)[0] == s[a as int]);
                }
            }
        }
    }
    r
}

impl Parser {
    /// Splits the unread text into method sources: lines accumulate into
    /// the current fragment, a line mentioning `Function` starts a new
    /// fragment, a line trimming to a closing brace ends the scan, and
    /// empty fragments are dropped.
    pub fn parse_methods(&self) -> (r: Vec<String>)
        requires
            self@.pos <= self@.src.len(),
        ensures
            r@.map_values(|x: String| x@) == parse_methods_spec(self@.src.skip(self@.pos)),
    {
        let ghost tail = self@.src.skip(self@.pos);
        // copy the unread text
        let mut t: Vec<char> = Vec::new();
        let mut i: usize = self.pos;
        while i < self.src.len()
            invariant
                self@.pos <= i <= self@.src.len(),
                t@ == self@.src.subrange(self@.pos, i as int),
            decreases self.src.len() - i,
        {
            t.push(self.src[i]);
            proof {
                assert(t@ =~= self@.src.subrange(self@.pos, i + 1));
            }
            i = i + 1;
        }
        proof {
            assert(t@ =~= tail);
        }
        // split into lines
        let mut lines: Vec<Vec<char>> = Vec::new();
        let mut cur: Vec<char> = Vec::new();
        let mut j: usize = 0;
        let ghost mut ls: int = 0int;
        proof {
            assert(tail.skip(0) =~= tail);
        }
        while j < t.len()
            invariant
                t@ == tail,
                0 <= ls <= j <= tail.len(),
                cur@ == tail.subrange(ls, j as int),
                forall|x: int| ls <= x < j ==> tail[x] != '\n',
                split_lines(tail) == lines@.map_values(|l: Vec<char>| l@) + split_lines(
                    tail.skip(ls),
                ),
            decreases t.len() - j,
        {
            let c = t[j];
            if c == '\n' {
                let mut line = cur;
                cur = Vec::new();
                if line.len() > 0 && line[line.len() - 1] == '\r' {
                    let _ = line.pop();
                }
                proof {
                    let u = tail.skip(ls);
                    lemma_line_end_at(u, 0, j - ls);
                    assert(u.subrange(0, j - ls) =~= tail.subrange(ls, j as int));
                    assert(line@ =~= strip_cr(tail.subrange(ls, j as int)));
                    assert(u.skip(j - ls + 1) =~= tail.skip(j + 1));
                }
                let ghost lines0 = lines@.map_values(|l: Vec<char>| l@);
                lines.push(line);
                proof {
                    assert(lines@.map_values(|l: Vec<char>| l@) =~= lines0.push(
                        strip_cr(tail.subrange(ls, j as int)),
                    ));
                    assert(lines0.push(strip_cr(tail.subrange(ls, j as int))) + split_lines(
                        tail.skip(j + 1),
                    ) =~= lines0 + (seq![strip_cr(tail.subrange(ls, j as int))] + split_lines(
                        tail.skip(j + 1),
                    )));
                }
                j = j + 1;
                proof {
                    ls = j as int;
                    assert(cur@ =~= tail.subrange(ls, j as int));
                }
            } else {
                cur.push(c);
                j = j + 1;
                proof {
                    assert(cur@ =~= tail.subrange(ls, j as int));
                }
            }
        }
        if cur.len() > 0 {
            proof {
                let u = tail.skip(ls);
                lemma_line_end_at(u, 0, tail.len() - ls);
                assert(u =~= tail.subrange(ls, tail.len() as int));
                assert(cur@ =~= u);
                assert(seq![u] =~= Seq::<Seq<char>>::empty().push(u));
            }
            let ghost lines0 = lines@.map_values(|l: Vec<char>| l@);
            lines.push(cur);
            proof {
                assert(lines@.map_values(|l: Vec<char>| l@) =~= lines0.push(tail.skip(ls)));
                assert(lines0.push(tail.skip(ls)) =~= lines0 + seq![tail.skip(ls)]);
            }
        } else {
            proof {
                assert(tail.skip(ls).len() == 0);
                assert(lines@.map_values(|l: Vec<char>| l@) + split_lines(tail.skip(ls))
                    =~= lines@.map_values(|l: Vec<char>| l@));
            }
        }
        let ghost lines_v = lines@.map_values(|l: Vec<char>| l@);
        proof {
            assert(lines_v == split_lines(tail));
        }
        // fold the lines into method fragments
        let mut raw: Vec<Vec<char>> = Vec::new();
        let mut func: Vec<char> = Vec::new();
        let mut k: usize = 0;
        proof {
            assert(raw@.map_values(|l: Vec<char>| l@) =~= Seq::<Seq<char>>::empty());
            assert(func@ =~= Seq::<char>::empty());
        }
        while k < lines.len()
            invariant_except_break
                0 <= k <= lines.len(),
                lines@.map_values(|l: Vec<char>| l@) == lines_v,
                pm_fold(lines_v, 0, Seq::empty(), Seq::empty()) == pm_fold(
                    lines_v,
                    k as int,
                    func@,
                    raw@.map_values(|l: Vec<char>| l@),
                ),
            ensures
                pm_fold(lines_v, 0, Seq::empty(), Seq::empty()) == raw@.map_values(
                    |l: Vec<char>| l@,
                ).push(func@),
            decreases lines.len() - k,
        {
            let ghost raw0 = raw@.map_values(|l: Vec<char>| l@);
            let ghost func0 = func@;
            proof {
                assert(lines_v[k as int] == lines@[k as int]@);
            }
            if trims_to_close_brace(&lines[k]) {
                break ;
            }
            let started = contains_function(&lines[k]);
            if started {
                raw.push(func);
                func = Vec::new();
                proof {
                    assert(raw@.map_values(|l: Vec<char>| l@) =~= raw0.push(func0));
                }
            }
            // append the line and a newline to the fragment
            let line = &lines[k];
            let ghost func1 = func@;
            let mut x: usize = 0;
            while x < line.len()
                invariant
                    x <= line@.len(),
                    func@ == func1 + line@.subrange(0, x as int),
                decreases line.len() - x,
            {
                func.push(line[x]);
                proof {
                    assert(func1 + line@.subrange(0, x + 1) =~= (func1 + line@.subrange(
                        0,
                        x as int,
                    )).push(line@[x as int]));
                }
                x = x + 1;
            }
            func.push('\n');
            proof {
                assert(line@.subrange(0, line@.len() as int) =~= line@);
                if started {
                    assert(func@ =~= lines_v[k as int] + seq!['\n']);
                } else {
                    assert(func@ =~= func0 + lines_v[k as int] + seq!['\n']);
                }
            }
            k = k + 1;
        }
        let ghost raw_final = raw@.map_values(|l: Vec<char>| l@).push(func@);
        raw.push(func);
        proof {
            assert(raw@.map_values(|l: Vec<char>| l@) =~= raw_final);
        }
        // keep only the non-empty fragments
        let mut out: Vec<String> = Vec::new();
        let mut q: usize = 0;
        proof {
            reveal(Seq::filter);
            assert(raw_final.subrange(0, 0).filter(|f: Seq<char>| f.len() > 0)
                =~= out@.map_values(|x: String| x@));
        }
        while q < raw.len()
            invariant
                q <= raw@.len(),
                raw@.map_values(|l: Vec<char>| l@) == raw_final,
                out@.map_values(|x: String| x@) == raw_final.subrange(0, q as int).filter(
                    |f: Seq<char>| f.len() > 0,
                ),
            decreases raw.len() - q,
        {
            proof {
                reveal(Seq::filter);
                let pre = raw_final.subrange(0, q as int);
                let curq = raw_final.subrange(0, q + 1);
                assert(curq.drop_last() =~= pre);
                assert(curq.last() == raw_final[q as int]);
            }
            if raw[q].len() > 0 {
                let ghost out0 = out@.map_values(|x: String| x@);
                let sq = chars_to_string(&raw[q]);
                out.push(sq);
                proof {
                    assert(out@.map_values(|x: String| x@) =~= out0.push(raw_final[q as int]));
                }
            }
            q = q + 1;
        }
        proof {
            assert(raw_final.subrange(0, raw_final.len() as int) =~= raw_final);
        }
        out
    }
}

} // verus!
