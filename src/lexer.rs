use vstd::prelude::*;
use crate::value::{Binop, Number, Token, Value, Variable};

verus! {

pub open spec fn is_space(c: char) -> bool {
    c == ' ' || c == '\t' || c == '\n'
}

/// Characters that stand as fragments of their own outside quotes.
pub open spec fn is_punct(c: char) -> bool {
    c == '=' || c == ',' || c == ';' || c == '(' || c == ')' || c == '+'
}

pub open spec fn is_quote(c: char) -> bool {
    c == '"' || c == '\''
}

/// A fragment that an `=` completes into a two-character operator.
pub open spec fn is_digraph_head(w: Seq<char>) -> bool {
    w == seq!['<'] || w == seq!['>'] || w == seq!['~']
}

/// Scanning `src` from position `i`, with `word` read so far and `quoted`
/// telling whether a quoted string is open: the fragment that ends the
/// scan, and the position after it.
pub open spec fn scan(src: Seq<char>, i: int, word: Seq<char>, quoted: bool) -> (Seq<char>, int)
    decreases src.len() - i,
{
    if i < 0 || i >= src.len() {
        (word, i)
    } else {
        let c = src[i];
        if quoted && !is_quote(c) {
            scan(src, i + 1, word.push(c), true)
        } else if is_space(c) {
            if word.len() > 0 {
                (word, i)
            } else {
                scan(src, i + 1, word, false)
            }
        } else if c == '=' && is_digraph_head(word) {
            (word.push(c), i + 1)
        } else if c == '=' && word.len() == 0 && i + 1 < src.len() && src[i + 1] == '=' {
            (seq!['=', '='], i + 2)
        } else if is_punct(c) {
            if word.len() == 0 {
                (seq![c], i + 1)
            } else {
                (word, i)
            }
        } else if is_quote(c) {
            if quoted {
                (word.push(c), i + 1)
            } else {
                scan(src, i + 1, word.push(c), true)
            }
        } else {
            scan(src, i + 1, word.push(c), quoted)
        }
    }
}

/// The next fragment of `src` at position `i`, and the position after it;
/// an empty fragment means that none is left.
pub open spec fn next_fragment(src: Seq<char>, i: int) -> (Seq<char>, int) {
    scan(src, i, Seq::empty(), false)
}

/// All fragments of `src` from position `i` on.
pub open spec fn fragments_from(src: Seq<char>, i: int) -> Seq<Seq<char>>
    decreases src.len() - i,
{
    let (w, j) = next_fragment(src, i);
    if i < 0 || i >= src.len() || w.len() == 0 || j <= i || j > src.len() {
        Seq::empty()
    } else {
        seq![w].add(fragments_from(src, j))
    }
}

/// All fragments of `src`.
pub open spec fn fragments(src: Seq<char>) -> Seq<Seq<char>> {
    fragments_from(src, 0)
}

proof fn lemma_scan_progress(src: Seq<char>, i: int, word: Seq<char>, quoted: bool)
    requires
        0 <= i <= src.len(),
    ensures
        i <= scan(src, i, word, quoted).1 <= src.len(),
        word.len() == 0 && scan(src, i, word, quoted).0.len() > 0 ==> scan(src, i, word, quoted).1 > i,
    decreases src.len() - i,
{
    if i < src.len() {
        let c = src[i];
        if quoted && !is_quote(c) {
            lemma_scan_progress(src, i + 1, word.push(c), true);
        } else if is_space(c) {
            if word.len() == 0 {
                lemma_scan_progress(src, i + 1, word, false);
            }
        } else if c == '=' && is_digraph_head(word) {
        } else if c == '=' && word.len() == 0 && i + 1 < src.len() && src[i + 1] == '=' {
        } else if is_punct(c) {
        } else if is_quote(c) {
            if !quoted {
                lemma_scan_progress(src, i + 1, word.push(c), true);
            }
        } else {
            lemma_scan_progress(src, i + 1, word.push(c), quoted);
        }
    }
}

/// A source made only of whitespace has no fragments.
pub proof fn lemma_whitespace_has_no_fragments(src: Seq<char>)
    requires
        forall|k: int| 0 <= k < src.len() ==> is_space(#[trigger] src[k]),
    ensures
        fragments(src).len() == 0,
{
    lemma_blank_scan(src, 0);
}

proof fn lemma_blank_scan(src: Seq<char>, i: int)
    requires
        0 <= i <= src.len(),
        forall|k: int| 0 <= k < src.len() ==> is_space(#[trigger] src[k]),
    ensures
        scan(src, i, Seq::empty(), false).0.len() == 0,
    decreases src.len() - i,
{
    if i < src.len() {
        assert(is_space(src[i]));
        lemma_blank_scan(src, i + 1);
    }
}

/// Builds a `String` from characters.
/// Relies on std's `FromIterator<char>` for `String`: the string holds the
/// characters in order.
#[verifier::external_body]
fn string_of(chars: &Vec<char>) -> (r: String)
    ensures
        r@ == chars@,
{
    chars.iter().collect()
}

/// The characters of a string.
fn chars_of(s: &str) -> (r: Vec<char>)
    ensures
        r@ == s@,
{
    let n = s.unicode_len();
    let mut out: Vec<char> = Vec::new();
    let mut i: usize = 0;
    while i < n
        invariant
            n == s@.len(),
            i <= n,
            out@ == s@.subrange(0, i as int),
        decreases n - i,
    {
        out.push(s.get_char(i));
        i += 1;
        assert(out@ =~= s@.subrange(0, i as int));
    }
    assert(out@ =~= s@);
    out
}

/// Splits source text into fragments: whitespace separates them outside
/// quoted strings, and punctuation stands alone.
pub struct Separator {
    src: Vec<char>,
    i: usize,
}

impl Separator {
    pub closed spec fn source(&self) -> Seq<char> {
        self.src@
    }

    /// The position of the next character to read.
    pub closed spec fn position(&self) -> int {
        self.i as int
    }

    pub closed spec fn wf(&self) -> bool {
        self.i <= self.src.len()
    }

    /// The fragments not read yet.
    pub open spec fn rest(&self) -> Seq<Seq<char>> {
        fragments_from(self.source(), self.position())
    }

    pub fn new(src: &str) -> (r: Separator)
        ensures
            r.wf(),
            r.source() == src@,
            r.position() == 0,
            r.rest() == fragments(src@),
    {
        Separator { src: chars_of(src), i: 0 }
    }

    /// The next fragment, if any is left.
    pub fn next(&mut self) -> (r: Option<String>)
        requires
            old(self).wf(),
        ensures
            final(self).wf(),
            final(self).source() == old(self).source(),
            ({
                let (w, j) = next_fragment(old(self).source(), old(self).position());
                &&& final(self).position() == j
                &&& w.len() == 0 ==> r is None
                &&& w.len() > 0 ==> r is Some && r->0@ == w
            }),
    {
        let ghost src = self.src@;
        let ghost i0 = self.i as int;
        let n = self.src.len();
        let mut word: Vec<char> = Vec::new();
        let mut quoted = false;
        proof {
            lemma_scan_progress(src, i0, Seq::empty(), false);
        }
        while self.i < n
            invariant_except_break
                scan(src, self.i as int, word@, quoted) == next_fragment(src, i0),
            invariant
                self.src@ == src,
                n == src.len(),
                self.i <= n,
            ensures
                (word@, self.i as int) == next_fragment(src, i0),
            decreases n - self.i,
        {
            let c = self.src[self.i];
            if quoted && !(c == '"' || c == '\'') {
                word.push(c);
            } else if c == ' ' || c == '\t' || c == '\n' {
                if word.len() > 0 {
                    break;
                }
            } else if c == '=' && word.len() == 1 && (word[0] == '<' || word[0] == '>' || word[0] == '~') {
                proof {
                    assert(is_digraph_head(word@)) by {
                        if word[0] == '<' {
                            assert(word@ =~= seq!['<']);
                        } else if word[0] == '>' {
                            assert(word@ =~= seq!['>']);
                        } else {
                            assert(word@ =~= seq!['~']);
                        }
                    }
                }
                word.push(c);
                self.i += 1;
                break;
            } else if c == '=' && word.len() == 0 && self.i + 1 < n && self.src[self.i + 1] == '=' {
                proof {
                    assert(!is_digraph_head(word@)) by {
                        assert(seq!['<'].len() == 1);
                        assert(seq!['>'].len() == 1);
                        assert(seq!['~'].len() == 1);
                    }
                }
                word.push('=');
                word.push('=');
                self.i += 2;
                assert(word@ =~= seq!['=', '=']);
                break;
            } else if c == '=' || c == ',' || c == ';' || c == '(' || c == ')' || c == '+' {
                proof {
                    if c == '=' {
                        assert(!is_digraph_head(word@)) by {
                            if word@.len() == 1 {
                                assert(word@ != seq!['<']) by { assert(seq!['<'][0] == '<'); }
                                assert(word@ != seq!['>']) by { assert(seq!['>'][0] == '>'); }
                                assert(word@ != seq!['~']) by { assert(seq!['~'][0] == '~'); }
                            } else {
                                assert(seq!['<'].len() == 1);
                                assert(seq!['>'].len() == 1);
                                assert(seq!['~'].len() == 1);
                            }
                        }
                    }
                }
                if word.len() == 0 {
                    word.push(c);
                    self.i += 1;
                    assert(word@ =~= seq![c]);
                }
                break;
            } else if c == '"' || c == '\'' {
                word.push(c);
                if quoted {
                    self.i += 1;
                    break;
                }
                quoted = true;
            } else {
                word.push(c);
            }
            self.i += 1;
        }
        if word.len() == 0 {
            None
        } else {
            Some(string_of(&word))
        }
    }

    /// All fragments that are left, in order.
    pub fn collect_words(&mut self) -> (r: Vec<String>)
        requires
            old(self).wf(),
        ensures
            r@.len() == old(self).rest().len(),
            forall|k: int| 0 <= k < r@.len() ==> #[trigger] r@[k]@ == old(self).rest()[k],
    {
        let mut out: Vec<String> = Vec::new();
        let ghost src = self.source();
        let ghost start = old(self).rest();
        loop
            invariant
                self.wf(),
                self.source() == src,
                start == old(self).rest(),
                0 <= self.position() <= src.len(),
                start == {
                    let done = Seq::new(out@.len(), |k: int| out@[k]@);
                    done + fragments_from(src, self.position())
                },
            decreases src.len() - self.position(),
        {
            let ghost p = self.position();
            proof {
                lemma_scan_progress(src, p, Seq::empty(), false);
            }
            let ghost before = Seq::new(out@.len(), |k: int| out@[k]@);
            match self.next() {
                None => {
                    assert(fragments_from(src, p).len() == 0);
                    assert(start =~= before);
                    assert forall|k: int| 0 <= k < out@.len() implies #[trigger] out@[k]@ == start[k] by {
                        assert(before[k] == out@[k]@);
                    }
                    return out;
                },
                Some(w) => {
                    out.push(w);
                    let ghost after = Seq::new(out@.len(), |k: int| out@[k]@);
                    assert(after =~= before.push(w@));
                    assert(start =~= after + fragments_from(src, self.position()));
                },
            }
        }
    }
}

/// What a quoted fragment holds: the fragment without its first and its
/// last character.
pub open spec fn unquote(w: Seq<char>) -> Seq<char> {
    if w.len() <= 1 {
        Seq::empty()
    } else {
        w.subrange(1, w.len() - 1)
    }
}

/// The token that a keyword or an operator fragment stands for.
pub open spec fn keyword(w: Seq<char>) -> Option<Token> {
    if w == "="@ { Some(Token::Equal) }
    else if w == "true"@ { Some(Token::Constant(Value::True)) }
    else if w == "false"@ { Some(Token::Constant(Value::False)) }
    else if w == "nil"@ { Some(Token::Constant(Value::Nil)) }
    else if w == "local"@ { Some(Token::Local) }
    else if w == ","@ { Some(Token::ExpressionSeparator) }
    else if w == "+"@ { Some(Token::Binop(Binop::Add)) }
    else if w == "-"@ { Some(Token::Binop(Binop::Sub)) }
    else if w == "*"@ { Some(Token::Binop(Binop::Mul)) }
    else if w == "/"@ { Some(Token::Binop(Binop::Div)) }
    else if w == "<"@ { Some(Token::Binop(Binop::Lt)) }
    else if w == "<="@ { Some(Token::Binop(Binop::Le)) }
    else if w == "=="@ { Some(Token::Binop(Binop::Eq)) }
    else if w == ">"@ { Some(Token::Binop(Binop::Gt)) }
    else if w == ">="@ { Some(Token::Binop(Binop::Ge)) }
    else if w == "~="@ { Some(Token::Binop(Binop::Neq)) }
    else if w == "("@ { Some(Token::OpeningParenthesis) }
    else if w == ")"@ { Some(Token::ClosingParenthesis) }
    else if w == "do"@ { Some(Token::StartBlock) }
    else if w == "end"@ { Some(Token::EndBlock) }
    else if w == "if"@ { Some(Token::If) }
    else if w == "elseif"@ { Some(Token::ElseIf) }
    else if w == "else"@ { Some(Token::Else) }
    else if w == "while"@ { Some(Token::While) }
    else if w == "function"@ { Some(Token::Function) }
    else { None }
}

/// `t` is the token of fragment `w`, where `number` is what reading `w` as
/// a numeral gave: a quoted fragment is a string, then a numeral a number,
/// then a keyword or an operator, and anything else a name.
pub open spec fn is_token_of(t: Token, w: Seq<char>, number: Option<Number>) -> bool {
    if w.len() > 0 && is_quote(w[0]) {
        t matches Token::Constant(Value::String(s)) && s@ == unquote(w)
    } else if number is Some {
        t == Token::Constant(Value::Number(number->0))
    } else if keyword(w) is Some {
        t == keyword(w)->0
    } else {
        t matches Token::Variable(Variable::Name(s)) && s@ == w
    }
}

fn same_chars(w: &str, k: &str) -> (r: bool)
    ensures
        r == (w@ == k@),
{
    let n = w.unicode_len();
    if n != k.unicode_len() {
        return false;
    }
    let mut i: usize = 0;
    while i < n
        invariant
            n == w@.len(),
            n == k@.len(),
            i <= n,
            w@.subrange(0, i as int) == k@.subrange(0, i as int),
        decreases n - i,
    {
        if w.get_char(i) != k.get_char(i) {
            assert(w@.subrange(0, i as int + 1)[i as int] != k@.subrange(0, i as int + 1)[i as int]);
            return false;
        }
        i += 1;
        assert(w@.subrange(0, i as int) =~= w@.subrange(0, i as int - 1).push(w@[i as int - 1]));
        assert(k@.subrange(0, i as int) =~= k@.subrange(0, i as int - 1).push(k@[i as int - 1]));
    }
    assert(w@ =~= w@.subrange(0, n as int));
    assert(k@ =~= k@.subrange(0, n as int));
    true
}

fn keyword_token(w: &str) -> (r: Option<Token>)
    ensures
        r == keyword(w@),
{
    if same_chars(w, "=") { Some(Token::Equal) }
    else if same_chars(w, "true") { Some(Token::Constant(Value::True)) }
    else if same_chars(w, "false") { Some(Token::Constant(Value::False)) }
    else if same_chars(w, "nil") { Some(Token::Constant(Value::Nil)) }
    else if same_chars(w, "local") { Some(Token::Local) }
    else if same_chars(w, ",") { Some(Token::ExpressionSeparator) }
    else if same_chars(w, "+") { Some(Token::Binop(Binop::Add)) }
    else if same_chars(w, "-") { Some(Token::Binop(Binop::Sub)) }
    else if same_chars(w, "*") { Some(Token::Binop(Binop::Mul)) }
    else if same_chars(w, "/") { Some(Token::Binop(Binop::Div)) }
    else if same_chars(w, "<") { Some(Token::Binop(Binop::Lt)) }
    else if same_chars(w, "<=") { Some(Token::Binop(Binop::Le)) }
    else if same_chars(w, "==") { Some(Token::Binop(Binop::Eq)) }
    else if same_chars(w, ">") { Some(Token::Binop(Binop::Gt)) }
    else if same_chars(w, ">=") { Some(Token::Binop(Binop::Ge)) }
    else if same_chars(w, "~=") { Some(Token::Binop(Binop::Neq)) }
    else if same_chars(w, "(") { Some(Token::OpeningParenthesis) }
    else if same_chars(w, ")") { Some(Token::ClosingParenthesis) }
    else if same_chars(w, "do") { Some(Token::StartBlock) }
    else if same_chars(w, "end") { Some(Token::EndBlock) }
    else if same_chars(w, "if") { Some(Token::If) }
    else if same_chars(w, "elseif") { Some(Token::ElseIf) }
    else if same_chars(w, "else") { Some(Token::Else) }
    else if same_chars(w, "while") { Some(Token::While) }
    else if same_chars(w, "function") { Some(Token::Function) }
    else { None }
}

/// Classifies one fragment. `number` is the fragment read as a binary32
/// numeral, `None` where it is not one.
pub fn classify(word: &str, number: Option<Number>) -> (t: Token)
    ensures
        is_token_of(t, word@, number),
{
    let n = word.unicode_len();
    if n > 0 && (word.get_char(0) == '"' || word.get_char(0) == '\'') {
        if n <= 1 {
            Token::Constant(Value::String(String::new()))
        } else {
            let inner = word.substring_char(1, n - 1);
            Token::Constant(Value::String(inner.to_owned()))
        }
    } else if let Some(x) = number {
        Token::Constant(Value::Number(x))
    } else {
        match keyword_token(word) {
            Some(t) => t,
            None => Token::Variable(Variable::Name(word.to_owned())),
        }
    }
}

/// A token sequence with one token of look-ahead.
pub struct Tokenizer {
    tokens: Vec<Token>,
    pos: usize,
}

/// `ts` are the tokens of the fragments `ws`, each number read by `read_number`.
pub open spec fn tokens_of<F: Fn(String) -> Option<Number>>(ts: Seq<Token>, ws: Seq<Seq<char>>, read_number: F) -> bool {
    &&& ts.len() == ws.len()
    &&& forall|k: int| 0 <= k < ts.len() ==> #[trigger] token_read(ts[k], ws[k], read_number)
}

/// `t` is the token of fragment `w`, read by `read_number` as a numeral.
pub open spec fn token_read<F: Fn(String) -> Option<Number>>(t: Token, w: Seq<char>, read_number: F) -> bool {
    exists|s: String, n: Option<Number>|
        s@ == w && #[trigger] read_number.ensures((s,), n) && is_token_of(t, w, n)
}

impl Tokenizer {
    pub closed spec fn wf(&self) -> bool {
        self.pos <= self.tokens.len()
    }

    /// The tokens not read yet, in order.
    pub closed spec fn remaining(&self) -> Seq<Token> {
        self.tokens@.subrange(self.pos as int, self.tokens@.len() as int)
    }

    /// The tokens of `src`; `read_number` reads a fragment as a binary32
    /// numeral, giving `None` where the fragment is not one.
    pub fn new<F: Fn(String) -> Option<Number>>(src: &str, read_number: F) -> (r: Tokenizer)
        requires
            forall|s: String| read_number.requires((s,)),
        ensures
            r.wf(),
            tokens_of(r.remaining(), fragments(src@), read_number),
    {
        let mut sep = Separator::new(src);
        let words = sep.collect_words();
        let mut tokens: Vec<Token> = Vec::new();
        let mut k: usize = 0;
        while k < words.len()
            invariant
                k <= words@.len(),
                words@.len() == fragments(src@).len(),
                forall|j: int| 0 <= j < words@.len() ==> #[trigger] words@[j]@ == fragments(src@)[j],
                forall|s: String| read_number.requires((s,)),
                tokens_of(tokens@, fragments(src@).subrange(0, k as int), read_number),
            decreases words@.len() - k,
        {
            let w = &words[k];
            let c = w.clone();
            let ghost cg = c;
            let n = read_number(c);
            let t = classify(w.as_str(), n);
            let ghost old_tokens = tokens@;
            let ghost old_ws = fragments(src@).subrange(0, k as int);
            tokens.push(t);
            proof {
                let ws = fragments(src@).subrange(0, k as int + 1);
                assert forall|j: int| 0 <= j < tokens@.len() implies #[trigger] token_read(tokens@[j], ws[j], read_number) by {
                    if j < k {
                        assert(tokens@[j] == old_tokens[j]);
                        assert(ws[j] == old_ws[j]);
                        assert(token_read(old_tokens[j], old_ws[j], read_number));
                    } else {
                        assert(ws[j] == w@);
                        assert(read_number.ensures((cg,), n));
                        assert(is_token_of(t, cg@, n));
                    }
                }
                assert(tokens@.len() == ws.len());
                assert(tokens_of(tokens@, ws, read_number));
            }
            k += 1;
        }
        assert(fragments(src@).subrange(0, k as int) =~= fragments(src@));
        let r = Tokenizer { tokens, pos: 0 };
        assert(r.remaining() =~= tokens@);
        r
    }

    /// A tokenizer over tokens already classified.
    pub fn from_tokens(tokens: Vec<Token>) -> (r: Tokenizer)
        ensures
            r.wf(),
            r.remaining() == tokens@,
    {
        let r = Tokenizer { tokens, pos: 0 };
        assert(r.remaining() =~= r.tokens@);
        r
    }

    /// The next token, without reading it.
    pub fn peek(&self) -> (r: Option<Token>)
        requires
            self.wf(),
        ensures
            self.remaining().len() == 0 ==> r is None,
            self.remaining().len() > 0 ==> r == Some(self.remaining()[0]),
    {
        if self.pos < self.tokens.len() {
            Some(self.tokens[self.pos].duplicate())
        } else {
            None
        }
    }

    /// Reads the next token.
    pub fn next(&mut self) -> (r: Option<Token>)
        requires
            old(self).wf(),
        ensures
            final(self).wf(),
            old(self).remaining().len() == 0 ==> r is None && final(self).remaining() == old(self).remaining(),
            old(self).remaining().len() > 0 ==> r == Some(old(self).remaining()[0])
                && final(self).remaining() == old(self).remaining().drop_first(),
    {
        if self.pos < self.tokens.len() {
            let t = self.tokens[self.pos].duplicate();
            self.pos += 1;
            assert(self.remaining() =~= old(self).remaining().drop_first());
            Some(t)
        } else {
            None
        }
    }

    /// All tokens that are left, in order.
    pub fn collect_tokens(&mut self) -> (r: Vec<Token>)
        requires
            old(self).wf(),
        ensures
            final(self).wf(),
            r@ == old(self).remaining(),
            final(self).remaining().len() == 0,
    {
        let mut out: Vec<Token> = Vec::new();
        while self.pos < self.tokens.len()
            invariant
                self.wf(),
                self.tokens@ == old(self).tokens@,
                old(self).pos <= self.pos,
                out@ == self.tokens@.subrange(old(self).pos as int, self.pos as int),
            decreases self.tokens@.len() - self.pos,
        {
            out.push(self.tokens[self.pos].duplicate());
            self.pos += 1;
            assert(out@ =~= self.tokens@.subrange(old(self).pos as int, self.pos as int));
        }
        proof {
            assert(self.remaining() =~= Seq::<Token>::empty());
        }
        out
    }
}

} // verus!
