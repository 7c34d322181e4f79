use vstd::prelude::*;
use vstd::string::StrSliceExecFns;

use crate::bytecode::no_args;
use crate::bytecode::no_names;
use crate::bytecode::VirtualMachine;
use crate::parser::chars_to_string;
use crate::parser::has_prefix;
use crate::parser::ident_end;
use crate::parser::ident_stop;
use crate::parser::is_ws;
use crate::parser::is_ws_char;
use crate::parser::rskip_ws;
use crate::parser::skip_ws_from;
use crate::parser::str_to_chars;
use crate::parser::token_end;
use crate::parser::trim_spec;
use crate::parser::Parser;
use crate::typekind::FnKind;

verus! {

/// A lexical token: a recognised keyword, or an identifier.
#[derive(Debug)]
pub enum Token {
    Keyword(FnKind),
    Identifier(String),
}

impl Clone for Token {
    fn clone(&self) -> (r: Self)
        ensures
            r@ == self@,
    {
        match self {
            Token::Keyword(k) => Token::Keyword(*k),
            Token::Identifier(n) => Token::Identifier(n.clone()),
        }
    }
}

/// The mathematical value of a `Token`.
pub enum TokV {
    Keyword(FnKind),
    Identifier(Seq<char>),
}

impl View for Token {
    type V = TokV;

    open spec fn view(&self) -> TokV {
        match self {
            Token::Keyword(k) => TokV::Keyword(*k),
            Token::Identifier(n) => TokV::Identifier(n@),
        }
    }
}

/// The first position at or after `k` holding `c`, or the end of the
/// text.
pub open spec fn find_char(s: Seq<char>, k: int, c: char) -> int
    decreases s.len() - k,
{
    if 0 <= k < s.len() && s[k] != c {
        find_char(s, k + 1, c)
    } else {
        k
    }
}

pub proof fn lemma_find_char_bounds(s: Seq<char>, k: int, c: char)
    requires
        0 <= k <= s.len(),
    ensures
        k <= find_char(s, k, c) <= s.len(),
    decreases s.len() - k,
{
    if k < s.len() && s[k] != c {
        lemma_find_char_bounds(s, k + 1, c);
    }
}

/// A run without `c` bounded by `c` or the end ends exactly at that
/// bound.
pub proof fn lemma_find_char_at(s: Seq<char>, k: int, e: int, c: char)
    requires
        0 <= k <= e <= s.len(),
        forall|x: int| k <= x < e ==> s[x] != c,
        e == s.len() || s[e] == c,
    ensures
        find_char(s, k, c) == e,
    decreases e - k,
{
    if k < e {
        lemma_find_char_at(s, k + 1, e, c);
    }
}

/// The pieces of a text split at each occurrence of `sep`, with a final
/// empty piece dropped.
pub open spec fn split_term(s: Seq<char>, sep: char) -> Seq<Seq<char>>
    decreases s.len()
        via split_term_decreases
{
    if s.len() == 0 {
        Seq::empty()
    } else {
        let i = find_char(s, 0, sep);
        if i == s.len() {
            seq![s]
        } else {
            seq![s.subrange(0, i)] + split_term(s.skip(i + 1), sep)
        }
    }
}

#[via_fn]
proof fn split_term_decreases(s: Seq<char>, sep: char) {
    if s.len() > 0 {
        lemma_find_char_bounds(s, 0, sep);
    }
}

/// Splits the characters at each occurrence of `sep`, dropping a final
/// empty piece.
fn split_on_char(v: &Vec<char>, sep: char) -> (r: Vec<Vec<char>>)
    ensures
        r@.map_values(|l: Vec<char>| l@) == split_term(v@, sep),
{
    let ghost s = v@;
    let mut out: Vec<Vec<char>> = Vec::new();
    let mut cur: Vec<char> = Vec::new();
    let mut j: usize = 0;
    let ghost mut ls: int = 0int;
    proof {
        assert(s.skip(0) =~= s);
        assert(out@.map_values(|l: Vec<char>| l@) =~= Seq::<Seq<char>>::empty());
        assert(cur@ =~= s.subrange(0, 0));
    }
    while j < v.len()
        invariant
            v@ == s,
            0 <= ls <= j <= s.len(),
            cur@ == s.subrange(ls, j as int),
            forall|x: int| ls <= x < j ==> s[x] != sep,
            split_term(s, sep) == out@.map_values(|l: Vec<char>| l@) + split_term(
                s.skip(ls),
                sep,
            ),
        decreases v.len() - j,
    {
        let c = v[j];
        if c == sep {
            let line = cur;
            cur = Vec::new();
            proof {
                let u = s.skip(ls);
                lemma_find_char_at(u, 0, j - ls, sep);
                assert(u.subrange(0, j - ls) =~= s.subrange(ls, j as int));
                assert(u.skip(j - ls + 1) =~= s.skip(j + 1));
            }
            let ghost out0 = out@.map_values(|l: Vec<char>| l@);
            out.push(line);
            proof {
                assert(out@.map_values(|l: Vec<char>| l@) =~= out0.push(
                    s.subrange(ls, j as int),
                ));
                assert(out0.push(s.subrange(ls, j as int)) + split_term(s.skip(j + 1), sep)
                    =~= out0 + (seq![s.subrange(ls, j as int)] + split_term(s.skip(j + 1), sep)));
            }
            j = j + 1;
            proof {
                ls = j as int;
                assert(cur@ =~= s.subrange(ls, j as int));
            }
        } else {
            cur.push(c);
            j = j + 1;
            proof {
                assert(cur@ =~= s.subrange(ls, j as int));
            }
        }
    }
    if cur.len() > 0 {
        proof {
            let u = s.skip(ls);
            lemma_find_char_at(u, 0, s.len() - ls, sep);
            assert(u =~= s.subrange(ls, s.len() as int));
            assert(cur@ =~= u);
            assert(seq![u] =~= Seq::<Seq<char>>::empty().push(u));
        }
        let ghost out0 = out@.map_values(|l: Vec<char>| l@);
        out.push(cur);
        proof {
            assert(out@.map_values(|l: Vec<char>| l@) =~= out0.push(s.skip(ls)));
            assert(out0.push(s.skip(ls)) =~= out0 + seq![s.skip(ls)]);
        }
    } else {
        proof {
            assert(s.skip(ls).len() == 0);
            assert(out@.map_values(|l: Vec<char>| l@) + split_term(s.skip(ls), sep)
                =~= out@.map_values(|l: Vec<char>| l@));
        }
    }
    out
}

/// The characters with leading and trailing whitespace removed.
fn trim_chars(v: &Vec<char>) -> (r: Vec<char>)
    ensures
        r@ == trim_spec(v@),
{
    let ghost s = v@;
    let mut a: usize = 0;
    while a < v.len() && is_ws(v[a])
        invariant
            0 <= a <= s.len(),
            s == v@,
            skip_ws_from(s, 0) == skip_ws_from(s, a as int),
        decreases s.len() - a,
    {
        a = a + 1;
    }
    let mut b: usize = v.len();
    while b > 0 && is_ws(v[b - 1])
        invariant
            0 <= b <= s.len(),
            s == v@,
            rskip_ws(s, s.len() as int) == rskip_ws(s, b as int),
        decreases b,
    {
        b = b - 1;
    }
    let mut r: Vec<char> = Vec::new();
    if b <= a {
        proof {
            assert(r@ =~= trim_spec(s));
        }
        return r;
    }
    let mut i: usize = a;
    while i < b
        invariant
            a <= i <= b <= s.len(),
            s == v@,
            r@ == s.subrange(a as int, i as int),
        decreases b - i,
    {
        r.push(v[i]);
        proof {
            assert(r@ =~= s.subrange(a as int, i + 1));
        }
        i = i + 1;
    }
    r
}

/// What one raw token means: the recognised keywords map to their
/// operator kinds, the arity markers and the empty token are dropped,
/// and anything else is an identifier.
pub open spec fn token_to_v(tok: Seq<char>) -> Option<TokV> {
    if tok == "Return"@ {
        Some(TokV::Keyword(FnKind::Return))
    } else if tok == "Add"@ {
        Some(TokV::Keyword(FnKind::Add))
    } else if tok == "Eq"@ {
        Some(TokV::Keyword(FnKind::Eq))
    } else if tok == "Is"@ {
        Some(TokV::Keyword(FnKind::Is))
    } else if tok == "Call"@ {
        Some(TokV::Keyword(FnKind::Call))
    } else if tok == "Binary"@ || tok == "Unary"@ || tok == "Nary"@ || tok.len() == 0 {
        None
    } else {
        Some(TokV::Identifier(tok))
    }
}

/// The tokens of one line, read with the raw tokenizer from `pos`.
pub open spec fn lex_line_from(s: Seq<char>, pos: int) -> Seq<TokV>
    decreases s.len() - pos
        when 0 <= pos <= s.len()
        via lex_line_from_decreases
{
    if pos >= s.len() {
        Seq::empty()
    } else {
        let e = token_end(s, pos);
        let tok = s.subrange(pos, e);
        let pos2 = if e < s.len() {
            e + 1
        } else {
            e
        };
        let rest = lex_line_from(s, pos2);
        match token_to_v(tok) {
            Some(tv) => seq![tv] + rest,
            None => rest,
        }
    }
}

#[via_fn]
proof fn lex_line_from_decreases(s: Seq<char>, pos: int) {
    if pos < s.len() {
        crate::parser::lemma_token_end_bounds(s, pos);
    }
}

/// The first position at or after `k` holding a non-whitespace
/// character run's end: the next whitespace character, or the end.
pub open spec fn word_end(s: Seq<char>, k: int) -> int
    decreases s.len() - k,
{
    if 0 <= k < s.len() && !is_ws_char(s[k]) {
        word_end(s, k + 1)
    } else {
        k
    }
}

pub proof fn lemma_word_end_bounds(s: Seq<char>, k: int)
    requires
        0 <= k <= s.len(),
    ensures
        k <= word_end(s, k) <= s.len(),
    decreases s.len() - k,
{
    if k < s.len() && !is_ws_char(s[k]) {
        lemma_word_end_bounds(s, k + 1);
    }
}

/// The maximal whitespace-free runs of a text, from `pos` on.
pub open spec fn words_from(s: Seq<char>, pos: int) -> Seq<Seq<char>>
    decreases s.len() - pos
        when 0 <= pos <= s.len()
        via words_from_decreases
{
    let a = skip_ws_from(s, pos);
    if a >= s.len() {
        Seq::empty()
    } else {
        seq![s.subrange(a, word_end(s, a))] + words_from(s, word_end(s, a))
    }
}

proof fn lemma_filter_all_out(s: Seq<Seq<char>>)
    requires
        forall|i: int| 0 <= i < s.len() ==> (#[trigger] s[i]).len() == 0,
    ensures
        s.filter(keep_nonempty()).len() == 0,
    decreases s.len(),
{
    reveal(Seq::filter);
    if s.len() > 0 {
        lemma_filter_all_out(s.drop_last());
    }
}

/// Skipping whitespace stops on a non-whitespace character or the end.
pub proof fn lemma_skip_ws_stops(s: Seq<char>, pos: int)
    requires
        0 <= pos <= s.len(),
    ensures
        skip_ws_from(s, pos) < s.len() ==> !is_ws_char(s[skip_ws_from(s, pos)]),
    decreases s.len() - pos,
{
    if pos < s.len() && is_ws_char(s[pos]) {
        lemma_skip_ws_stops(s, pos + 1);
    }
}

#[via_fn]
proof fn words_from_decreases(s: Seq<char>, pos: int) {
    crate::parser::lemma_skip_ws_bounds(s, pos);
    lemma_skip_ws_stops(s, pos);
    let a = skip_ws_from(s, pos);
    if a < s.len() {
        lemma_word_end_bounds(s, a + 1);
        assert(word_end(s, a) == word_end(s, a + 1));
    }
}

/// The words of all lines from `k` on, in order.
pub open spec fn words_of_lines(lines: Seq<Seq<char>>, k: int) -> Seq<Seq<char>>
    decreases lines.len() - k,
{
    if k < 0 || k >= lines.len() {
        Seq::empty()
    } else {
        words_from(lines[k], 0) + words_of_lines(lines, k + 1)
    }
}

/// The tokens of the lines from `k` on, stopping before the first line
/// that yields no token at all.
pub open spec fn lex_until_empty(lines: Seq<Seq<char>>, k: int) -> Seq<TokV>
    decreases lines.len() - k,
{
    if k < 0 || k >= lines.len() {
        Seq::empty()
    } else {
        let t = lex_line_from(lines[k], 0);
        if t.len() == 0 {
            Seq::empty()
        } else {
            t + lex_until_empty(lines, k + 1)
        }
    }
}

/// Whether two texts hold the same characters.
fn str_eq(a: &str, b: &str) -> (r: bool)
    ensures
        r == (a@ == b@),
{
    let n = a.unicode_len();
    let m = b.unicode_len();
    if n != m {
        return false;
    }
    let mut i: usize = 0;
    while i < n
        invariant
            i <= n,
            n == a@.len(),
            n == b@.len(),
            forall|x: int| 0 <= x < i ==> a@[x] == b@[x],
        decreases n - i,
    {
        if a.get_char(i) != b.get_char(i) {
            return false;
        }
        i = i + 1;
    }
    proof {
        assert(a@ =~= b@);
    }
    true
}

/// The lines of a lexer source: the trimmed text split at newlines.
pub open spec fn lexer_lines(s: Seq<char>) -> Seq<Seq<char>> {
    split_term(trim_spec(s), '\n')
}

/// Position of the opening bracket of the header's `Function(`.
pub open spec fn header_paren(l0: Seq<char>) -> int {
    let p2 = skip_ws_from(l0, ident_stop(l0, skip_ws_from(l0, 0)));
    skip_ws_from(l0, p2 + "Function"@.len())
}

/// The header line parses: a name, the `Function` keyword, then an
/// opening bracket.
pub open spec fn header_ok(l0: Seq<char>) -> bool {
    let p2 = skip_ws_from(l0, ident_stop(l0, skip_ws_from(l0, 0)));
    &&& has_prefix(l0, p2, "Function"@)
    &&& header_paren(l0) < l0.len()
    &&& l0[header_paren(l0)] == '('
}

/// Keeps a line exactly when it is not blank.
pub open spec fn keep_nonempty() -> spec_fn(Seq<char>) -> bool {
    |l: Seq<char>| l.len() > 0
}

/// Trims a line.
pub open spec fn trim_of() -> spec_fn(Seq<char>) -> Seq<char> {
    |l: Seq<char>| trim_spec(l)
}

/// The body lines of a lexer source: everything after the header,
/// trimmed, with blank lines dropped.
pub open spec fn body_lines(s: Seq<char>) -> Seq<Seq<char>> {
    lexer_lines(s).skip(1).map_values(trim_of()).filter(keep_nonempty())
}

/// What a lexer source must look like: at least a header line that
/// parses and one non-blank body line.
pub open spec fn lexer_input_ok(s: Seq<char>) -> bool {
    &&& lexer_lines(s).len() > 0
    &&& header_ok(lexer_lines(s)[0])
    &&& body_lines(s).len() > 0
}

/// A per-function lexer: the function's name and argument names read
/// from its header line, its body lines, and a cursor over them.
#[derive(Debug, Clone)]
pub struct Lexer {
    name: String,
    args: Vec<String>,
    src: Vec<String>,
    line: usize,
}

/// The mathematical value of a `Lexer`.
pub struct LexerV {
    pub name: Seq<char>,
    pub args: Seq<Seq<char>>,
    pub src: Seq<Seq<char>>,
    pub line: int,
}

impl View for Lexer {
    type V = LexerV;

    closed spec fn view(&self) -> LexerV {
        LexerV {
            name: self.name@,
            args: self.args@.map_values(|x: String| x@),
            src: self.src@.map_values(|x: String| x@),
            line: self.line as int,
        }
    }
}

impl Lexer {
    /// Reads one function source: the first trimmed line must be
    /// `name: Function(args...`, the remaining non-blank trimmed lines
    /// are the body, and the body's last line loses its final character,
    /// the remnant of the closing bracket.
    pub fn new(src: &str) -> (l: Lexer)
        requires
            lexer_input_ok(src@),
        ensures
            l@.line == 0,
            ({
                let l0 = lexer_lines(src@)[0];
                let p1 = skip_ws_from(l0, 0);
                l@.name == l0.subrange(p1, ident_end(l0, p1))
            }),
            ({
                let l0 = lexer_lines(src@)[0];
                l@.args == split_term(l0.skip(header_paren(l0) + 1), ',').map_values(
                    |x: Seq<char>| trim_spec(x),
                )
            }),
            ({
                let b = body_lines(src@);
                l@.src == b.update(b.len() - 1, b.last().drop_last())
            }),
    {
        let all = str_to_chars(src);
        let t = trim_chars(&all);
        let lines = split_on_char(&t, '\n');
        let ghost lines_v = lexer_lines(src@);
        proof {
            assert(lines@.map_values(|l: Vec<char>| l@) == lines_v);
            assert(lines@.len() > 0);
            assert(lines@[0]@ == lines_v[0]);
        }
        let l0s = chars_to_string(&lines[0]);
        let ghost l0 = lines_v[0];
        let mut p = Parser::new(l0s.as_str());
        let name = match p.consume_identifier() {
            Ok(n) => n,
            Err(_) => {
                proof {
                    assert(false);
                }
                String::new()
            },
        };
        p.consume_whitespace();
        let kw = p.consume_keyword("Function");
        proof {
            assert(kw is Ok);
        }
        let br = p.consume_brace('(');
        proof {
            crate::parser::lemma_skip_ws_bounds(
                l0,
                skip_ws_from(l0, ident_stop(l0, skip_ws_from(l0, 0))) + "Function"@.len(),
            );
            assert(br is Ok);
        }
        let rem = p.remaining();
        let rem_chars = str_to_chars(rem.as_str());
        let raw_args = split_on_char(&rem_chars, ',');
        let ghost raw_args_v = split_term(l0.skip(header_paren(l0) + 1), ',');
        proof {
            assert(raw_args@.map_values(|l: Vec<char>| l@) == raw_args_v);
        }
        let mut args: Vec<String> = Vec::new();
        let mut i: usize = 0;
        while i < raw_args.len()
            invariant
                i <= raw_args@.len(),
                raw_args@.map_values(|l: Vec<char>| l@) == raw_args_v,
                args@.len() == i,
                forall|x: int|
                    0 <= x < i ==> (#[trigger] args@[x])@ == trim_spec(raw_args_v[x]),
            decreases raw_args.len() - i,
        {
            let tc = trim_chars(&raw_args[i]);
            args.push(chars_to_string(&tc));
            i = i + 1;
        }
        proof {
            assert(args@.map_values(|x: String| x@) =~= raw_args_v.map_values(
                |x: Seq<char>| trim_spec(x),
            ));
        }
        // body lines: trim, drop blanks
        let ghost body_v = body_lines(src@);
        let mut body: Vec<Vec<char>> = Vec::new();
        let mut k: usize = 1;
        proof {
            reveal(Seq::filter);
            assert(lines_v.subrange(1, 1).map_values(trim_of()).filter(keep_nonempty())
                =~= body@.map_values(|l: Vec<char>| l@));
        }
        while k < lines.len()
            invariant
                1 <= k <= lines@.len(),
                lines@.map_values(|l: Vec<char>| l@) == lines_v,
                body@.map_values(|l: Vec<char>| l@) == lines_v.subrange(1, k as int).map_values(
                    trim_of(),
                ).filter(keep_nonempty()),
            decreases lines.len() - k,
        {
            proof {
                reveal(Seq::filter);
                let pre = lines_v.subrange(1, k as int).map_values(trim_of());
                let curk = lines_v.subrange(1, k + 1).map_values(trim_of());
                assert(curk.drop_last() =~= pre);
                assert(lines_v.subrange(1, k + 1)[k - 1] == lines_v[k as int]);
                assert(curk.last() == trim_spec(lines_v[k as int]));
            }
            let tc = trim_chars(&lines[k]);
            if tc.len() > 0 {
                let ghost body0 = body@.map_values(|l: Vec<char>| l@);
                body.push(tc);
                proof {
                    assert(body@.map_values(|l: Vec<char>| l@) =~= body0.push(
                        trim_spec(lines_v[k as int]),
                    ));
                }
            }
            k = k + 1;
        }
        proof {
            assert(lines_v.subrange(1, lines_v.len() as int) =~= lines_v.skip(1));
            assert(body@.map_values(|l: Vec<char>| l@) == body_v);
            assert(body@.len() == body_v.len());
        }
        // the body's last line loses the closing bracket remnant
        let mut lb = match body.pop() {
            Some(x) => x,
            None => {
                proof {
                    assert(false);
                }
                Vec::new()
            },
        };
        proof {
            let unfiltered = lexer_lines(src@).skip(1).map_values(trim_of());
            unfiltered.lemma_filter_pred(keep_nonempty(), body_v.len() - 1);
            assert(lb@.len() > 0);
        }
        let _ = lb.pop();
        let ghost body_kept = body@.map_values(|l: Vec<char>| l@);
        body.push(lb);
        proof {
            assert(body@.map_values(|l: Vec<char>| l@) =~= body_v.update(
                body_v.len() - 1,
                body_v.last().drop_last(),
            ));
        }
        let ghost final_body = body@.map_values(|l: Vec<char>| l@);
        let mut src_field: Vec<String> = Vec::new();
        let mut q: usize = 0;
        while q < body.len()
            invariant
                q <= body@.len(),
                body@.map_values(|l: Vec<char>| l@) == final_body,
                src_field@.len() == q,
                forall|x: int|
                    0 <= x < q ==> (#[trigger] src_field@[x])@ == final_body[x],
            decreases body.len() - q,
        {
            src_field.push(chars_to_string(&body[q]));
            q = q + 1;
        }
        let l = Lexer { name, args, src: src_field, line: 0 };
        proof {
            assert(l@.src =~= final_body);
            assert(l@.args =~= args@.map_values(|x: String| x@));
        }
        l
    }

    /// How many body lines, or after `tokenize` how many words, remain
    /// stored.
    pub fn len(&self) -> (r: usize)
        ensures
            r == self@.src.len(),
    {
        self.src.len()
    }

    /// The function's name.
    pub fn name(&self) -> (r: String)
        ensures
            r@ == self@.name,
    {
        self.name.clone()
    }

    /// The function's argument names.
    pub fn arguments(&self) -> (r: Vec<String>)
        ensures
            r@.map_values(|x: String| x@) == self@.args,
    {
        let mut out: Vec<String> = Vec::new();
        let mut i: usize = 0;
        while i < self.args.len()
            invariant
                i <= self.args@.len(),
                out@.len() == i,
                forall|x: int| 0 <= x < i ==> (#[trigger] out@[x])@ == self@.args[x],
            decreases self.args.len() - i,
        {
            out.push(self.args[i].clone());
            i = i + 1;
        }
        proof {
            assert(out@.map_values(|x: String| x@) =~= self@.args);
        }
        out
    }

    /// Re-splits the stored lines into whitespace-separated words, kept
    /// flat in order.
    pub fn tokenize(&mut self)
        ensures
            final(self)@.name == old(self)@.name,
            final(self)@.args == old(self)@.args,
            final(self)@.line == old(self)@.line,
            final(self)@.src == words_of_lines(old(self)@.src, 0),
    {
        let ghost src_v = self@.src;
        let mut out: Vec<String> = Vec::new();
        let mut k: usize = 0;
        proof {
            assert(out@.map_values(|x: String| x@) =~= Seq::<Seq<char>>::empty());
        }
        while k < self.src.len()
            invariant
                k <= src_v.len(),
                self@.src == src_v,
                words_of_lines(src_v, 0) == out@.map_values(|x: String| x@) + words_of_lines(
                    src_v,
                    k as int,
                ),
            decreases self.src.len() - k,
        {
            let lc = str_to_chars(self.src[k].as_str());
            let ghost line_s = src_v[k as int];
            proof {
                assert(lc@ == line_s);
            }
            let mut pos: usize = 0;
            let ghost out_k = out@.map_values(|x: String| x@);
            proof {
                assert(out_k + (words_from(line_s, 0) + words_of_lines(src_v, k + 1)) =~= (out_k
                    + words_from(line_s, 0)) + words_of_lines(src_v, k + 1));
            }
            loop
                invariant_except_break
                    lc@ == line_s,
                    0 <= pos <= line_s.len(),
                    out_k + words_from(line_s, 0) == out@.map_values(|x: String| x@)
                        + words_from(line_s, pos as int),
                ensures
                    out@.map_values(|x: String| x@) == out_k + words_from(line_s, 0),
                decreases line_s.len() - pos,
            {
                let ghost pos_iter0 = pos as int;
                while pos < lc.len() && is_ws(lc[pos])
                    invariant
                        lc@ == line_s,
                        0 <= pos_iter0 <= pos <= line_s.len(),
                        out_k + words_from(line_s, 0) == out@.map_values(|x: String| x@)
                            + words_from(line_s, pos as int),
                    decreases line_s.len() - pos,
                {
                    proof {
                        assert(words_from(line_s, pos as int) == words_from(line_s, pos + 1));
                    }
                    pos = pos + 1;
                }
                if pos >= lc.len() {
                    proof {
                        assert(words_from(line_s, pos as int) =~= Seq::<Seq<char>>::empty());
                        assert(out@.map_values(|x: String| x@) =~= out_k + words_from(line_s, 0));
                    }
                    break ;
                }
                let ghost a = pos as int;
                proof {
                    assert(skip_ws_from(line_s, a) == a);
                }
                let mut w: Vec<char> = Vec::new();
                proof {
                    assert(w@ =~= line_s.subrange(a, a));
                }
                while pos < lc.len() && !is_ws(lc[pos])
                    invariant
                        lc@ == line_s,
                        0 <= a <= pos <= line_s.len(),
                        w@ == line_s.subrange(a, pos as int),
                        word_end(line_s, a) == word_end(line_s, pos as int),
                    decreases line_s.len() - pos,
                {
                    w.push(lc[pos]);
                    pos = pos + 1;
                    proof {
                        assert(w@ =~= line_s.subrange(a, pos as int));
                    }
                }
                let ghost out_before = out@.map_values(|x: String| x@);
                out.push(chars_to_string(&w));
                proof {
                    assert(word_end(line_s, pos as int) == pos as int);
                    assert(out@.map_values(|x: String| x@) =~= out_before.push(
                        line_s.subrange(a, pos as int),
                    ));
                    assert(words_from(line_s, a) == seq![line_s.subrange(a, pos as int)]
                        + words_from(line_s, pos as int));
                    assert(out_before.push(line_s.subrange(a, pos as int)) + words_from(
                        line_s,
                        pos as int,
                    ) =~= out_before + words_from(line_s, a));
                    lemma_word_end_bounds(line_s, a + 1);
                    assert(word_end(line_s, a) == word_end(line_s, a + 1));
                    assert(pos > a);
                }
            }
            proof {
                assert((out_k + words_from(line_s, 0)) + words_of_lines(src_v, k + 1) =~= out_k + (
                words_from(line_s, 0) + words_of_lines(src_v, k + 1)));
            }
            k = k + 1;
        }
        proof {
            assert(words_of_lines(src_v, src_v.len() as int) =~= Seq::<Seq<char>>::empty());
            assert(out@.map_values(|x: String| x@) =~= words_of_lines(src_v, 0));
        }
        self.src = out;
    }

    /// The tokens of the next stored line: recognised keywords and
    /// identifiers, with arity markers and empty raw tokens dropped;
    /// `None` once the lines are exhausted or when the line yields no
    /// token.
    pub fn next(&mut self) -> (r: Option<Vec<Token>>)
        ensures
            final(self)@.name == old(self)@.name,
            final(self)@.args == old(self)@.args,
            final(self)@.src == old(self)@.src,
            ({
                if old(self)@.line >= old(self)@.src.len() {
                    r is None && final(self)@.line == old(self)@.line
                } else {
                    let toks = lex_line_from(old(self)@.src[old(self)@.line], 0);
                    final(self)@.line == old(self)@.line + 1 && if toks.len() > 0 {
                        r matches Some(v) && v@.map_values(|t: Token| t@) == toks
                    } else {
                        r is None
                    }
                }
            }),
    {
        if self.line >= self.src.len() {
            return None;
        }
        let line_str = self.src[self.line].clone();
        let ghost ls = self@.src[self@.line];
        proof {
            assert(line_str@ == ls);
        }
        let mut p = Parser::new(line_str.as_str());
        let mut tokens: Vec<Token> = Vec::new();
        proof {
            assert(tokens@.map_values(|t: Token| t@) =~= Seq::<TokV>::empty());
        }
        loop
            invariant_except_break
                p@.src == ls,
                0 <= p@.pos <= ls.len(),
                lex_line_from(ls, 0) == tokens@.map_values(|t: Token| t@) + lex_line_from(
                    ls,
                    p@.pos,
                ),
            ensures
                lex_line_from(ls, 0) == tokens@.map_values(|t: Token| t@),
            decreases ls.len() - p@.pos,
        {
            let ghost pos0 = p@.pos;
            let ghost toks0 = tokens@.map_values(|t: Token| t@);
            let tokopt = p.next();
            let tok = match tokopt {
                Some(t) => t,
                None => {
                    proof {
                        assert(lex_line_from(ls, pos0) =~= Seq::<TokV>::empty());
                        assert(toks0 + lex_line_from(ls, pos0) =~= toks0);
                    }
                    break ;
                },
            };
            proof {
                crate::parser::lemma_token_end_bounds(ls, pos0);
            }
            if str_eq(tok.as_str(), "Return") {
                tokens.push(Token::Keyword(FnKind::Return));
            } else if str_eq(tok.as_str(), "Add") {
                tokens.push(Token::Keyword(FnKind::Add));
            } else if str_eq(tok.as_str(), "Eq") {
                tokens.push(Token::Keyword(FnKind::Eq));
            } else if str_eq(tok.as_str(), "Is") {
                tokens.push(Token::Keyword(FnKind::Is));
            } else if str_eq(tok.as_str(), "Call") {
                tokens.push(Token::Keyword(FnKind::Call));
            } else if str_eq(tok.as_str(), "Binary") || str_eq(tok.as_str(), "Unary") || str_eq(
                tok.as_str(),
                "Nary",
            ) || tok.unicode_len() == 0 {
                // arity markers and empty raw tokens are dropped
            } else {
                tokens.push(Token::Identifier(tok));
            }
            proof {
                let e = token_end(ls, pos0);
                let raw = ls.subrange(pos0, e);
                match token_to_v(raw) {
                    Some(tv) => {
                        assert(tokens@.map_values(|t: Token| t@) =~= toks0.push(tv));
                        assert(toks0.push(tv) + lex_line_from(ls, p@.pos) =~= toks0 + (seq![tv]
                            + lex_line_from(ls, p@.pos)));
                    },
                    None => {
                        assert(tokens@.map_values(|t: Token| t@) =~= toks0);
                    },
                }
            }
        }
        self.line = self.line + 1;
        if tokens.len() > 0 {
            Some(tokens)
        } else {
            None
        }
    }

    /// All tokens of the stored lines, line by line, stopping before the
    /// first line that yields none.
    pub fn into_tokens(self) -> (r: Vec<Token>)
        ensures
            r@.map_values(|t: Token| t@) == lex_until_empty(self@.src, self@.line),
    {
        let ghost src_v = self@.src;
        let ghost start_line = self@.line;
        let mut me = self;
        let mut out: Vec<Token> = Vec::new();
        proof {
            assert(out@.map_values(|t: Token| t@) =~= Seq::<TokV>::empty());
        }
        if me.line >= me.src.len() {
            proof {
                assert(lex_until_empty(src_v, start_line) =~= Seq::<TokV>::empty());
            }
            return out;
        }
        loop
            invariant_except_break
                me@.src == src_v,
                0 <= me@.line <= src_v.len(),
                lex_until_empty(src_v, start_line) == out@.map_values(|t: Token| t@)
                    + lex_until_empty(src_v, me@.line),
            ensures
                lex_until_empty(src_v, start_line) == out@.map_values(|t: Token| t@),
            decreases src_v.len() - me@.line + 1,
        {
            let ghost out0 = out@.map_values(|t: Token| t@);
            let ghost line0 = me@.line;
            let ts = match me.next() {
                Some(ts) => ts,
                None => {
                    proof {
                        if line0 < src_v.len() {
                            assert(lex_until_empty(src_v, line0) =~= Seq::<TokV>::empty());
                        } else {
                            assert(lex_until_empty(src_v, line0) =~= Seq::<TokV>::empty());
                        }
                        assert(out0 + lex_until_empty(src_v, line0) =~= out0);
                    }
                    break ;
                },
            };
            let ghost ts_v = ts@.map_values(|t: Token| t@);
            let mut j: usize = 0;
            let mut ts = ts;
            while j < ts.len()
                invariant
                    j <= ts@.len(),
                    ts@.map_values(|t: Token| t@) == ts_v,
                    out@.map_values(|t: Token| t@) == out0 + ts_v.subrange(0, j as int),
                decreases ts.len() - j,
            {
                let ghost out_b = out@.map_values(|t: Token| t@);
                let tok = ts[j].clone();
                proof {
                    assert(tok@ == ts_v[j as int]);
                }
                out.push(tok);
                proof {
                    assert(out@.map_values(|t: Token| t@) =~= out_b.push(ts_v[j as int]));
                    assert(out_b.push(ts_v[j as int]) =~= out0 + ts_v.subrange(0, j + 1));
                }
                j = j + 1;
            }
            proof {
                assert(ts_v.subrange(0, ts_v.len() as int) =~= ts_v);
                assert(lex_until_empty(src_v, line0) == ts_v + lex_until_empty(src_v, line0 + 1));
                assert((out0 + ts_v) + lex_until_empty(src_v, me@.line) =~= out0 + (ts_v
                    + lex_until_empty(src_v, me@.line)));
            }
        }
        out
    }

    /// Reads one function source if it has the expected shape, and
    /// `None` when the header does not parse or the body is empty.
    pub fn try_new(src: &str) -> (r: Option<Lexer>)
        ensures
            r is Some <==> lexer_input_ok(src@),
            r matches Some(l) ==> l@.line == 0 && ({
                let l0 = lexer_lines(src@)[0];
                let p1 = skip_ws_from(l0, 0);
                l@.name == l0.subrange(p1, ident_end(l0, p1))
            }),
    {
        let all = str_to_chars(src);
        let t = trim_chars(&all);
        let lines = split_on_char(&t, '\n');
        let ghost lines_v = lexer_lines(src@);
        proof {
            assert(lines@.map_values(|l: Vec<char>| l@) == lines_v);
        }
        if lines.len() == 0 {
            return None;
        }
        let l0s = chars_to_string(&lines[0]);
        let ghost l0 = lines_v[0];
        let mut p = Parser::new(l0s.as_str());
        let name_r = p.consume_identifier();
        proof {
            assert(name_r is Ok);
            crate::parser::lemma_skip_ws_bounds(l0, 0);
            crate::parser::lemma_ident_end_bounds(l0, skip_ws_from(l0, 0));
        }
        p.consume_whitespace();
        proof {
            crate::parser::lemma_skip_ws_bounds(l0, ident_stop(l0, skip_ws_from(l0, 0)));
        }
        if p.consume_keyword("Function").is_err() {
            return None;
        }
        proof {
            crate::parser::lemma_skip_ws_bounds(
                l0,
                skip_ws_from(l0, ident_stop(l0, skip_ws_from(l0, 0))) + "Function"@.len(),
            );
        }
        if p.consume_brace('(').is_err() {
            return None;
        }
        // at least one non-blank body line must remain
        let ghost mapped = lines_v.skip(1).map_values(trim_of());
        let mut k: usize = 1;
        let mut found = false;
        while k < lines.len() && !found
            invariant
                1 <= k <= lines_v.len(),
                lines_v == lexer_lines(src@),
                lines@.map_values(|l: Vec<char>| l@) == lines_v,
                mapped == lines_v.skip(1).map_values(trim_of()),
                !found ==> forall|x: int| 0 <= x < k - 1 ==> (#[trigger] mapped[x]).len() == 0,
                found ==> body_lines(src@).len() > 0,
            decreases lines.len() - k,
        {
            let tc = trim_chars(&lines[k]);
            proof {
                assert(mapped[k - 1] == trim_spec(lines_v[k as int]));
            }
            if tc.len() > 0 {
                proof {
                    mapped.lemma_filter_contains(keep_nonempty(), k - 1);
                    assert(mapped.filter(keep_nonempty()).len() > 0);
                    assert(body_lines(src@).len() > 0);
                }
                found = true;
            }
            k = k + 1;
        }
        if found {
            Some(Lexer::new(src))
        } else {
            proof {
                if lines_v.len() > 1 {
                    lemma_filter_all_out(mapped);
                } else {
                    assert(lines_v.skip(1).len() == 0);
                    assert(mapped.len() == 0);
                    lemma_filter_all_out(mapped);
                }
            }
            None
        }
    }

    /// Hands the function's name and tokens to a fresh translator.
    pub fn into_vm(self) -> (vm: VirtualMachine)
        ensures
            vm@.name == self@.name,
            vm@.stream == lex_until_empty(self@.src, self@.line),
            vm@.stack.len() == 0,
            vm@.namespace == no_names(),
            vm@.bytecode.len() == 0,
            vm@.context == no_args(),
    {
        let name = self.name();
        let tokens = self.into_tokens();
        VirtualMachine::new(name, tokens)
    }
}

} // verus!
