use vstd::prelude::*;

use crate::text::push_char;

verus! {

/// A run of source text between delimiter boundaries.
pub struct Token {
    pub value: String,
}

impl View for Token {
    type V = Seq<char>;

    open spec fn view(&self) -> Seq<char> {
        self.value@
    }
}

/// The text of each token, in order.
pub open spec fn texts(ts: Seq<Token>) -> Seq<Seq<char>> {
    ts.map_values(|t: Token| t@)
}

/// Characters that always stand alone as one-character tokens.
pub open spec fn is_delimiter(c: char) -> bool {
    c == '{' || c == '}' || c == '[' || c == ']' || c == '(' || c == ')' || c == ' ' || c
        == '\n' || c == '"' || c == '\'' || c == '@' || c == '~' || c == '`'
}

pub open spec fn is_delimiter_token(t: Seq<char>) -> bool {
    t.len() == 1 && is_delimiter(t[0])
}

/// Whitespace tokens, which the tokenizer drops.
pub open spec fn is_blank(t: Seq<char>) -> bool {
    t.len() == 1 && (t[0] == ' ' || t[0] == '\n' || t[0] == '\t')
}

/// The tokens of `s` before blanks are dropped: a character starts a new token
/// when it is the first one, when it is a delimiter, or when the token before it
/// is a delimiter; otherwise it extends the current token.
pub open spec fn raw_tokens(s: Seq<char>) -> Seq<Seq<char>>
    decreases s.len(),
{
    if s.len() == 0 {
        seq![]
    } else {
        let prev = raw_tokens(s.drop_last());
        let c = s.last();
        if prev.len() == 0 || is_delimiter_token(prev.last()) || is_delimiter(c) {
            prev.push(seq![c])
        } else {
            prev.drop_last().push(prev.last().push(c))
        }
    }
}

/// `ts` without its blank tokens, order kept.
pub open spec fn drop_blanks(ts: Seq<Seq<char>>) -> Seq<Seq<char>>
    decreases ts.len(),
{
    if ts.len() == 0 {
        ts
    } else {
        let rest = drop_blanks(ts.drop_last());
        if is_blank(ts.last()) {
            rest
        } else {
            rest.push(ts.last())
        }
    }
}

/// The token texts of `s`.
pub open spec fn token_texts(s: Seq<char>) -> Seq<Seq<char>> {
    drop_blanks(raw_tokens(s))
}

fn exec_is_delimiter(c: char) -> (r: bool)
    ensures
        r == is_delimiter(c),
{
    c == '{' || c == '}' || c == '[' || c == ']' || c == '(' || c == ')' || c == ' ' || c
        == '\n' || c == '"' || c == '\'' || c == '@' || c == '~' || c == '`'
}

proof fn lemma_drop_blanks_push(ts: Seq<Seq<char>>, t: Seq<char>)
    ensures
        drop_blanks(ts.push(t)) == if is_blank(t) {
            drop_blanks(ts)
        } else {
            drop_blanks(ts).push(t)
        },
{
    assert(ts.push(t).drop_last() =~= ts);
}

/// Cuts `src` into tokens.
pub fn tokenize(src: &str) -> (r: Vec<Token>)
    ensures
        texts(r@) == token_texts(src@),
{
    broadcast use vstd::string::axiom_spec_iter;

    let mut done: Vec<Token> = Vec::new();
    let mut cur = String::new();
    let mut has_cur = false;
    let mut first: char = ' ';
    let mut single = false;
    let ghost mut raw: Seq<Seq<char>> = seq![];
    for c in it: src.chars()
        invariant
            it.seq() == src@,
            has_cur <==> it.index() > 0,
            has_cur ==> raw_tokens(src@.take(it.index() as int)) == raw.push(cur@),
            has_cur ==> cur@.len() >= 1 && cur@[0] == first && (single <==> cur@.len() == 1),
            !has_cur ==> raw == Seq::<Seq<char>>::empty(),
            texts(done@) == drop_blanks(raw),
    {
        proof {
            let p = src@.take(it.index() as int + 1);
            assert(p.drop_last() =~= src@.take(it.index() as int));
            assert(p.last() == c);
        }
        let ghost p = src@.take(it.index() as int + 1);
        let ghost prev = raw_tokens(src@.take(it.index() as int));
        proof {
            if !has_cur {
                assert(src@.take(it.index() as int) =~= Seq::<char>::empty());
            }
        }
        let cur_is_delim = single && exec_is_delimiter(first);
        if !has_cur || cur_is_delim || exec_is_delimiter(c) {
            if has_cur {
                let blank = single && (first == ' ' || first == '\n' || first == '\t');
                proof {
                    lemma_drop_blanks_push(raw, cur@);
                    raw = raw.push(cur@);
                }
                if !blank {
                    let ghost before = done@;
                    let ghost text = cur@;
                    done.push(Token { value: cur });
                    assert(texts(done@) =~= texts(before).push(text));
                }
            }
            cur = String::new();
            push_char(&mut cur, c);
            first = c;
            single = true;
            has_cur = true;
            assert(cur@ =~= seq![c]);
            assert(raw_tokens(p) == prev.push(seq![c]));
            assert(raw_tokens(p) == raw.push(cur@));
        } else {
            let ghost old_cur = cur@;
            push_char(&mut cur, c);
            single = false;
            assert(raw_tokens(p) =~= raw.push(old_cur).drop_last().push(cur@));
            assert(raw.push(old_cur).drop_last() =~= raw);
        }
    }
    if has_cur {
        assert(src@.take(src@.len() as int) =~= src@);
        let blank = single && (first == ' ' || first == '\n' || first == '\t');
        proof {
            lemma_drop_blanks_push(raw, cur@);
            raw = raw.push(cur@);
        }
        if !blank {
            let ghost before = done@;
            done.push(Token { value: cur });
            assert(texts(done@) =~= texts(before).push(cur@));
        }
    } else {
        assert(src@ =~= Seq::<char>::empty());
    }
    done
}

} // verus!
