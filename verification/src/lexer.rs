use vstd::prelude::*;

verus! {

broadcast use vstd::string::group_string_axioms;

/// A lexical token. Symbol tokens borrow their text from the source string.
#[derive(Debug, PartialEq, Eq)]
pub enum Token<'a> {
    LeftParen,
    RightParen,
    Number(u64),
    Symbol(&'a str),
}

/// The mathematical shape of a token: symbol text as a sequence of characters.
pub enum SpecToken {
    LeftParen,
    RightParen,
    Number(u64),
    Symbol(Seq<char>),
}

impl View for Token<'_> {
    type V = SpecToken;

    open spec fn view(&self) -> SpecToken {
        match *self {
            Token::LeftParen => SpecToken::LeftParen,
            Token::RightParen => SpecToken::RightParen,
            Token::Number(n) => SpecToken::Number(n),
            Token::Symbol(s) => SpecToken::Symbol(s@),
        }
    }
}

impl DeepView for Token<'_> {
    type V = SpecToken;

    open spec fn deep_view(&self) -> SpecToken {
        self.view()
    }
}

/// The characters the tokenizer treats as whitespace: they separate tokens
/// and never appear in any token.
pub open spec fn is_space(c: char) -> bool {
    c == ' ' || c == '\t' || c == '\n' || c == '\r'
}

/// A decimal digit.
pub open spec fn is_digit(c: char) -> bool {
    48 <= c as u32 <= 57
}

/// The numeric value of one decimal digit.
pub open spec fn digit_val(c: char) -> int {
    c as u32 - 48
}

/// The value of a run of decimal digits, most significant first.
pub open spec fn digits_val(s: Seq<char>) -> int
    decreases s.len(),
{
    if s.len() == 0 {
        0
    } else {
        digits_val(s.drop_last()) * 10 + digit_val(s.last())
    }
}

/// Whether `s` is a decimal literal of an unsigned 64-bit integer: an
/// optional leading `+`, then at least one digit, with a value at most
/// `u64::MAX`.
pub open spec fn is_u64_literal(s: Seq<char>) -> bool {
    let d = if s.len() > 0 && s[0] == '+' {
        s.skip(1)
    } else {
        s
    };
    d.len() > 0 && all_digits(d) && digits_val(d) <= u64::MAX
}

/// Whether every character of `s` is a decimal digit.
pub open spec fn all_digits(s: Seq<char>) -> bool {
    forall|i: int| 0 <= i < s.len() ==> is_digit(s[i])
}

/// The value of a decimal literal (leading `+` allowed).
pub open spec fn u64_literal_val(s: Seq<char>) -> u64 {
    let d = if s.len() > 0 && s[0] == '+' {
        s.skip(1)
    } else {
        s
    };
    digits_val(d) as u64
}

/// How one maximal run of non-separator characters becomes a token: a valid
/// unsigned 64-bit literal is a number, any other text is a symbol.
pub open spec fn spec_classify(w: Seq<char>) -> SpecToken {
    if is_u64_literal(w) {
        SpecToken::Number(u64_literal_val(w))
    } else {
        SpecToken::Symbol(w)
    }
}

/// The pending run flushed as a word of its own, or nothing when it is empty.
pub open spec fn flush_run(p: Seq<char>) -> Seq<Seq<char>> {
    if p.len() == 0 {
        seq![]
    } else {
        seq![p]
    }
}

/// Splitting on separator characters, scanned left to right with `pending`
/// the run accumulated so far: a separator flushes the run and then stands as
/// a one-character word of its own; every other character extends the run.
pub open spec fn spec_separate_from(s: Seq<char>, seps: Seq<char>, pending: Seq<char>) -> Seq<
    Seq<char>,
>
    decreases s.len(),
{
    if s.len() == 0 {
        flush_run(pending)
    } else if seps.contains(s[0]) {
        flush_run(pending) + seq![seq![s[0]]] + spec_separate_from(s.skip(1), seps, Seq::empty())
    } else {
        spec_separate_from(s.skip(1), seps, pending.push(s[0]))
    }
}

/// What `separate` returns: the source split on separator characters, each
/// separator a one-character word of its own, with nothing dropped but runs
/// of length zero.
pub open spec fn spec_separate(s: Seq<char>, seps: Seq<char>) -> Seq<Seq<char>> {
    spec_separate_from(s, seps, Seq::empty())
}

/// Whether the character `c` occurs in `s`.
pub fn contains_char(s: &str, c: char) -> (b: bool)
    ensures
        b == s@.contains(c),
{
    let len = s.unicode_len();
    let mut i: usize = 0;
    while i < len
        invariant
            i <= len,
            len == s@.len(),
            forall|j: int| 0 <= j < i ==> s@[j] != c,
        decreases len - i,
    {
        if s.get_char(i) == c {
            return true;
        }
        i += 1;
    }
    false
}

/// Splits `s` on the characters of `separators`, keeping each separator as a
/// word of its own and dropping nothing else.
pub fn separate<'a>(s: &'a str, separators: &str) -> (v: Vec<&'a str>)
    ensures
        v.deep_view() == spec_separate(s@, separators@),
{
    let len = s.unicode_len();
    let mut v: Vec<&'a str> = Vec::new();
    let mut from: usize = 0;
    let mut i: usize = 0;
    proof {
        assert(s@.skip(0) =~= s@);
        assert(s@.subrange(0, 0) =~= Seq::<char>::empty());
        assert(v.deep_view() + spec_separate_from(s@, separators@, Seq::empty()) =~= spec_separate(
            s@,
            separators@,
        ));
    }
    while i < len
        invariant
            from <= i <= len,
            len == s@.len(),
            v.deep_view() + spec_separate_from(
                s@.skip(i as int),
                separators@,
                s@.subrange(from as int, i as int),
            ) == spec_separate(s@, separators@),
        decreases len - i,
    {
        let ghost prefix = v.deep_view();
        let ghost pending = s@.subrange(from as int, i as int);
        proof {
            assert(s@.skip(i as int)[0] == s@[i as int]);
            assert(s@.skip(i as int).skip(1) =~= s@.skip(i as int + 1));
        }
        let c = s.get_char(i);
        if contains_char(separators, c) {
            if from < i {
                let w = s.substring_char(from, i);
                v.push(w);
            }
            let p = s.substring_char(i, i + 1);
            v.push(p);
            proof {
                assert(s@.subrange(i as int, i as int + 1) =~= seq![s@[i as int]]);
                assert(s@.subrange(i as int + 1, i as int + 1) =~= Seq::<char>::empty());
                assert(v.deep_view() =~= prefix + flush_run(pending) + seq![seq![s@[i as int]]]);
                assert(v.deep_view() + spec_separate_from(
                    s@.skip(i as int + 1),
                    separators@,
                    s@.subrange(i as int + 1, i as int + 1),
                ) =~= prefix + spec_separate_from(s@.skip(i as int), separators@, pending));
            }
            from = i + 1;
        } else {
            proof {
                assert(s@.subrange(from as int, i as int + 1) =~= pending.push(s@[i as int]));
            }
        }
        i += 1;
    }
    if from < len {
        let w = s.substring_char(from, len);
        v.push(w);
        proof {
            assert(s@.skip(len as int) =~= Seq::<char>::empty());
            assert(v.deep_view() =~= v.deep_view().drop_last() + flush_run(
                s@.subrange(from as int, len as int),
            ));
        }
    } else {
        proof {
            assert(s@.skip(len as int) =~= Seq::<char>::empty());
            assert(s@.subrange(from as int, len as int) =~= Seq::<char>::empty());
            assert(v.deep_view() + flush_run(s@.subrange(from as int, len as int)) =~= v.deep_view());
        }
    }
    v
}

proof fn lemma_digits_val_nonneg(s: Seq<char>)
    requires
        all_digits(s),
    ensures
        digits_val(s) >= 0,
    decreases s.len(),
{
    if s.len() > 0 {
        assert(all_digits(s.drop_last()));
        lemma_digits_val_nonneg(s.drop_last());
    }
}

/// Extending a digit run to the right can only grow its value.
proof fn lemma_digits_val_prefix(s: Seq<char>, i: int)
    requires
        all_digits(s),
        0 <= i <= s.len(),
    ensures
        digits_val(s.subrange(0, i)) <= digits_val(s),
    decreases s.len() - i,
{
    if i < s.len() {
        let t = s.subrange(0, i + 1);
        assert(t.drop_last() =~= s.subrange(0, i));
        assert(all_digits(s.subrange(0, i)));
        lemma_digits_val_nonneg(s.subrange(0, i));
        assert(digits_val(s.subrange(0, i)) <= digits_val(t));
        lemma_digits_val_prefix(s, i + 1);
    } else {
        assert(s.subrange(0, i) =~= s);
    }
}

/// Reads `w` as a decimal literal of an unsigned 64-bit integer (an optional
/// leading `+`, then digits), or reports that it is none.
pub fn parse_u64(w: &str) -> (r: Option<u64>)
    ensures
        r == if is_u64_literal(w@) {
            Some(u64_literal_val(w@))
        } else {
            None::<u64>
        },
{
    let len = w.unicode_len();
    let mut start: usize = 0;
    if len > 0 && w.get_char(0) == '+' {
        start = 1;
    }
    let ghost d = if w@.len() > 0 && w@[0] == '+' {
        w@.skip(1)
    } else {
        w@
    };
    proof {
        assert(d =~= w@.subrange(start as int, len as int));
    }
    if start == len {
        return None;
    }
    let mut acc: u64 = 0;
    let mut i: usize = start;
    while i < len
        invariant
            start <= i <= len,
            len == w@.len(),
            start == if w@.len() > 0 && w@[0] == '+' {
                1int
            } else {
                0int
            },
            d == w@.subrange(start as int, len as int),
            d == if w@.len() > 0 && w@[0] == '+' {
                w@.skip(1)
            } else {
                w@
            },
            all_digits(w@.subrange(start as int, i as int)),
            acc == digits_val(w@.subrange(start as int, i as int)),
        decreases len - i,
    {
        let ghost seen = w@.subrange(start as int, i as int);
        let c = w.get_char(i);
        let cu = c as u32;
        if !(48 <= cu && cu <= 57) {
            proof {
                assert(d[i - start] == w@[i as int]);
                assert(!is_digit(d[i - start]));
                assert(!all_digits(d));
                assert(!is_u64_literal(w@));
            }
            return None;
        }
        let dv: u64 = (cu - 48) as u64;
        proof {
            assert(w@.subrange(start as int, i as int + 1).drop_last() =~= seen);
            assert(w@.subrange(start as int, i as int + 1).last() == w@[i as int]);
            assert(all_digits(w@.subrange(start as int, i as int + 1)));
        }
        let next = match acc.checked_mul(10) {
            Some(m) => m.checked_add(dv),
            None => None,
        };
        match next {
            Some(a) => {
                acc = a;
            },
            None => {
                proof {
                    let grown = w@.subrange(start as int, i as int + 1);
                    assert(digits_val(grown) == acc * 10 + digit_val(w@[i as int]));
                    assert(digits_val(grown) > u64::MAX);
                    if all_digits(d) {
                        assert(grown =~= d.subrange(0, i - start + 1));
                        lemma_digits_val_prefix(d, i - start + 1);
                        assert(digits_val(d) > u64::MAX);
                    }
                    assert(!is_u64_literal(w@));
                }
                return None;
            },
        }
        i += 1;
    }
    proof {
        assert(w@.subrange(start as int, len as int) =~= d);
    }
    Some(acc)
}

/// Turns one maximal non-separator run into its token: a number when the run
/// is an unsigned 64-bit literal, otherwise a symbol holding the exact text.
pub fn classify<'a>(w: &'a str) -> (t: Token<'a>)
    ensures
        t@ == spec_classify(w@),
{
    match parse_u64(w) {
        Some(n) => Token::Number(n),
        None => Token::Symbol(w),
    }
}

/// The pending run flushed as its token, or nothing when it is empty.
pub open spec fn flush_tokens(p: Seq<char>) -> Seq<SpecToken> {
    if p.len() == 0 {
        seq![]
    } else {
        seq![spec_classify(p)]
    }
}

/// The token sequence of the source, scanned left to right with `pending`
/// the run accumulated so far. A parenthesis flushes the run and stands as a
/// token of its own; whitespace flushes the run and is dropped; every other
/// character extends the run, flushed at the end of the source.
pub open spec fn spec_lex_from(s: Seq<char>, pending: Seq<char>) -> Seq<SpecToken>
    decreases s.len(),
{
    if s.len() == 0 {
        flush_tokens(pending)
    } else if s[0] == '(' {
        flush_tokens(pending) + seq![SpecToken::LeftParen] + spec_lex_from(s.skip(1), Seq::empty())
    } else if s[0] == ')' {
        flush_tokens(pending) + seq![SpecToken::RightParen] + spec_lex_from(s.skip(1), Seq::empty())
    } else if is_space(s[0]) {
        flush_tokens(pending) + spec_lex_from(s.skip(1), Seq::empty())
    } else {
        spec_lex_from(s.skip(1), pending.push(s[0]))
    }
}

/// What `lex` returns for the whole source.
pub open spec fn spec_lex(s: Seq<char>) -> Seq<SpecToken> {
    spec_lex_from(s, Seq::empty())
}

/// Whether the tokenizer treats `c` as whitespace.
pub fn is_space_char(c: char) -> (b: bool)
    ensures
        b == is_space(c),
{
    c == ' ' || c == '\t' || c == '\n' || c == '\r'
}

/// Splits the source text into its ordered token sequence. Whitespace
/// separates tokens; each parenthesis is a token of its own even with no
/// whitespace around it; every other maximal run is a number when it is an
/// unsigned 64-bit literal and otherwise a symbol. The tokenizer never fails.
pub fn lex<'a>(s: &'a str) -> (v: Vec<Token<'a>>)
    ensures
        v.deep_view() == spec_lex(s@),
{
    let len = s.unicode_len();
    let mut v: Vec<Token<'a>> = Vec::new();
    let mut from: usize = 0;
    let mut i: usize = 0;
    proof {
        assert(s@.skip(0) =~= s@);
        assert(s@.subrange(0, 0) =~= Seq::<char>::empty());
        assert(v.deep_view() + spec_lex_from(s@, Seq::empty()) =~= spec_lex(s@));
    }
    while i < len
        invariant
            from <= i <= len,
            len == s@.len(),
            v.deep_view() + spec_lex_from(
                s@.skip(i as int),
                s@.subrange(from as int, i as int),
            ) == spec_lex(s@),
        decreases len - i,
    {
        let ghost prefix = v.deep_view();
        let ghost pending = s@.subrange(from as int, i as int);
        proof {
            assert(s@.skip(i as int)[0] == s@[i as int]);
            assert(s@.skip(i as int).skip(1) =~= s@.skip(i as int + 1));
        }
        let c = s.get_char(i);
        if c == '(' || c == ')' || is_space_char(c) {
            if from < i {
                let w = s.substring_char(from, i);
                v.push(classify(w));
            }
            if c == '(' {
                v.push(Token::LeftParen);
            } else if c == ')' {
                v.push(Token::RightParen);
            }
            proof {
                assert(s@.subrange(i as int + 1, i as int + 1) =~= Seq::<char>::empty());
                if c == '(' {
                    assert(v.deep_view() =~= prefix + flush_tokens(pending) + seq![
                        SpecToken::LeftParen,
                    ]);
                } else if c == ')' {
                    assert(v.deep_view() =~= prefix + flush_tokens(pending) + seq![
                        SpecToken::RightParen,
                    ]);
                } else {
                    assert(v.deep_view() =~= prefix + flush_tokens(pending));
                }
                assert(v.deep_view() + spec_lex_from(
                    s@.skip(i as int + 1),
                    s@.subrange(i as int + 1, i as int + 1),
                ) =~= prefix + spec_lex_from(s@.skip(i as int), pending));
            }
            from = i + 1;
        } else {
            proof {
                assert(s@.subrange(from as int, i as int + 1) =~= pending.push(s@[i as int]));
            }
        }
        i += 1;
    }
    if from < len {
        let w = s.substring_char(from, len);
        v.push(classify(w));
        proof {
            assert(s@.skip(len as int) =~= Seq::<char>::empty());
            assert(v.deep_view() =~= v.deep_view().drop_last() + flush_tokens(
                s@.subrange(from as int, len as int),
            ));
        }
    } else {
        proof {
            assert(s@.skip(len as int) =~= Seq::<char>::empty());
            assert(s@.subrange(from as int, len as int) =~= Seq::<char>::empty());
            assert(v.deep_view() + flush_tokens(s@.subrange(from as int, len as int)) =~= v.deep_view());
        }
    }
    v
}

/// The digit character for one value below ten.
pub open spec fn digit_char(d: int) -> char {
    if d == 0 {
        '0'
    } else if d == 1 {
        '1'
    } else if d == 2 {
        '2'
    } else if d == 3 {
        '3'
    } else if d == 4 {
        '4'
    } else if d == 5 {
        '5'
    } else if d == 6 {
        '6'
    } else if d == 7 {
        '7'
    } else if d == 8 {
        '8'
    } else {
        '9'
    }
}

/// The canonical decimal digits of a value, most significant first.
pub open spec fn u64_digits(v: u64) -> Seq<char>
    decreases v,
{
    if v < 10 {
        seq![digit_char(v as int)]
    } else {
        u64_digits(v / 10).push(digit_char((v % 10) as int))
    }
}

/// The canonical digits of a value form an unsigned 64-bit literal, and one
/// that reads back as that value.
pub proof fn lemma_u64_digits_literal(v: u64)
    ensures
        u64_digits(v).len() >= 1,
        all_digits(u64_digits(v)),
        digits_val(u64_digits(v)) == v,
        is_u64_literal(u64_digits(v)),
        u64_literal_val(u64_digits(v)) == v,
    decreases v,
{
    if v < 10 {
        let s = u64_digits(v);
        assert(s.drop_last() =~= Seq::<char>::empty());
        assert(s.last() == digit_char(v as int));
        assert(digit_val(digit_char(v as int)) == v);
        assert(digits_val(Seq::<char>::empty()) == 0);
        assert(digits_val(s) == 0 * 10 + digit_val(digit_char(v as int)));
    } else {
        lemma_u64_digits_literal(v / 10);
        let s = u64_digits(v);
        let p = u64_digits(v / 10);
        assert(s.drop_last() =~= p);
        assert(s.last() == digit_char((v % 10) as int));
        assert(digit_val(digit_char((v % 10) as int)) == v % 10);
        assert(digits_val(s) == digits_val(p) * 10 + (v % 10));
        assert((v / 10) * 10 + v % 10 == v);
        assert(forall|i: int| 0 <= i < s.len() ==> is_digit(#[trigger] s[i]));
    }
    assert(u64_digits(v)[0] != '+');
}

/// A character a word may hold: not whitespace and not a parenthesis.
pub open spec fn word_char(c: char) -> bool {
    !is_space(c) && c != '(' && c != ')'
}

/// A word the tokenizer would read back as one token: nonempty, with no
/// separator characters.
pub open spec fn wf_word(s: Seq<char>) -> bool {
    s.len() > 0 && forall|i: int| 0 <= i < s.len() ==> word_char(#[trigger] s[i])
}

/// Whether a token can be printed and read back: a symbol needs text that is
/// one word and not a numeral; the others always can.
pub open spec fn wf_token(t: SpecToken) -> bool {
    match t {
        SpecToken::Symbol(s) => wf_word(s) && !is_u64_literal(s),
        _ => true,
    }
}

/// One token printed as source text: a parenthesis as its character, a
/// number as its decimal digits and a space, a symbol as its text and a
/// space.
pub open spec fn print_token(t: SpecToken) -> Seq<char> {
    match t {
        SpecToken::LeftParen => seq!['('],
        SpecToken::RightParen => seq![')'],
        SpecToken::Number(v) => u64_digits(v).push(' '),
        SpecToken::Symbol(s) => s.push(' '),
    }
}

/// A token sequence printed as source text, in order.
pub open spec fn print_tokens(ts: Seq<SpecToken>) -> Seq<char>
    decreases ts.len(),
{
    if ts.len() == 0 {
        seq![]
    } else {
        print_token(ts[0]) + print_tokens(ts.skip(1))
    }
}

/// Scanning a run of word characters only extends the pending run.
proof fn lemma_lex_word(w: Seq<char>, tail: Seq<char>, pending: Seq<char>)
    requires
        forall|i: int| 0 <= i < w.len() ==> word_char(#[trigger] w[i]),
    ensures
        spec_lex_from(w + tail, pending) == spec_lex_from(tail, pending + w),
    decreases w.len(),
{
    if w.len() == 0 {
        assert(w + tail =~= tail);
        assert(pending + w =~= pending);
    } else {
        let s = w + tail;
        assert(s[0] == w[0]);
        assert(s.skip(1) =~= w.skip(1) + tail);
        assert(pending.push(w[0]) + w.skip(1) =~= pending + w);
        lemma_lex_word(w.skip(1), tail, pending.push(w[0]));
    }
}

/// Tokenizing printed tokens gives back exactly those tokens: the tokenizer
/// inverts printing, for tokens whose text is printable at all.
pub proof fn lemma_lex_print_tokens(ts: Seq<SpecToken>)
    requires
        forall|i: int| 0 <= i < ts.len() ==> wf_token(#[trigger] ts[i]),
    ensures
        spec_lex_from(print_tokens(ts), Seq::empty()) == ts,
    decreases ts.len(),
{
    if ts.len() == 0 {
    } else {
        let rest = print_tokens(ts.skip(1));
        lemma_lex_print_tokens(ts.skip(1));
        match ts[0] {
            SpecToken::LeftParen => {
                let s = print_tokens(ts);
                assert(s[0] == '(');
                assert(s.skip(1) =~= rest);
                assert(seq![SpecToken::LeftParen] + ts.skip(1) =~= ts);
            },
            SpecToken::RightParen => {
                let s = print_tokens(ts);
                assert(s[0] == ')');
                assert(s.skip(1) =~= rest);
                assert(seq![SpecToken::RightParen] + ts.skip(1) =~= ts);
            },
            SpecToken::Number(v) => {
                lemma_u64_digits_literal(v);
                let w = u64_digits(v);
                assert(print_tokens(ts) =~= w + (seq![' '] + rest));
                assert(forall|i: int| 0 <= i < w.len() ==> word_char(#[trigger] w[i]));
                lemma_lex_word(w, seq![' '] + rest, Seq::empty());
                assert(Seq::empty() + w =~= w);
                let m = seq![' '] + rest;
                assert(m[0] == ' ');
                assert(m.skip(1) =~= rest);
                assert(spec_classify(w) == SpecToken::Number(v));
                assert(flush_tokens(w) + ts.skip(1) =~= ts);
            },
            SpecToken::Symbol(t) => {
                assert(print_tokens(ts) =~= t + (seq![' '] + rest));
                lemma_lex_word(t, seq![' '] + rest, Seq::empty());
                assert(Seq::empty() + t =~= t);
                let m = seq![' '] + rest;
                assert(m[0] == ' ');
                assert(m.skip(1) =~= rest);
                assert(spec_classify(t) == SpecToken::Symbol(t));
                assert(flush_tokens(t) + ts.skip(1) =~= ts);
            },
        }
    }
}

} // verus!
