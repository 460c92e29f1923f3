//! Tokenization of document text into normalized word tokens.
//!
//! A token is a maximal run of ASCII alphabetic characters, lowercased.
//! Every other character (whitespace, punctuation, digits, non-ASCII) is a
//! separator. Tokens appear in left-to-right order and duplicates are kept,
//! since frequency counting depends on repetition.

use vstd::prelude::*;

verus! {

use vstd::std_specs::iter::IteratorSpec;

/// A word character: an ASCII letter.
pub open spec fn is_word_char(c: char) -> bool {
    (97 <= c as int && c as int <= 122) || (65 <= c as int && c as int <= 90)
}

/// Lowercase an ASCII letter; every other character is left unchanged.
pub open spec fn lower_char(c: char) -> char {
    if 65 <= c as int && c as int <= 90 {
        ((c as u8) + 32) as char
    } else {
        c
    }
}

/// Lowercase an ASCII letter; every other character is returned unchanged.
pub fn lower_char_exec(c: char) -> (r: char)
    ensures
        r == lower_char(c),
{
    let u = c as u32;
    if 65 <= u && u <= 90 {
        ((u as u8) + 32) as char
    } else {
        c
    }
}

/// Whether `c` is an ASCII letter.
pub fn is_word_char_exec(c: char) -> (r: bool)
    ensures
        r == is_word_char(c),
{
    let u = c as u32;
    (97 <= u && u <= 122) || (65 <= u && u <= 90)
}

/// A well-formed token: non-empty, and every character a lowercase letter.
pub open spec fn is_token(t: Seq<char>) -> bool {
    t.len() > 0 && (forall|i: int| 0 <= i < t.len() ==> 97 <= #[trigger] t[i] as int <= 122)
}

/// The tokens of `rest`, given that the lowercased characters `cur` of a
/// word in progress immediately precede `rest`.
pub open spec fn tok_acc(rest: Seq<char>, cur: Seq<char>) -> Seq<Seq<char>>
    decreases rest.len(),
{
    if rest.len() == 0 {
        if cur.len() > 0 {
            seq![cur]
        } else {
            Seq::empty()
        }
    } else if is_word_char(rest[0]) {
        tok_acc(rest.drop_first(), cur.push(lower_char(rest[0])))
    } else if cur.len() > 0 {
        seq![cur] + tok_acc(rest.drop_first(), Seq::empty())
    } else {
        tok_acc(rest.drop_first(), Seq::empty())
    }
}

/// The token sequence of a character sequence: maximal runs of ASCII letters,
/// lowercased, in order of appearance.
pub open spec fn tokens_of(s: Seq<char>) -> Seq<Seq<char>> {
    tok_acc(s, Seq::empty())
}

/// Every token produced from any input is non-empty and lowercase.
pub proof fn lemma_tokens_wf(s: Seq<char>)
    ensures
        forall|i: int| 0 <= i < tokens_of(s).len() ==> is_token(#[trigger] tokens_of(s)[i]),
{
    lemma_tok_acc_wf(s, Seq::empty());
}

proof fn lemma_tok_acc_wf(rest: Seq<char>, cur: Seq<char>)
    requires
        forall|i: int| 0 <= i < cur.len() ==> 97 <= #[trigger] cur[i] as int <= 122,
    ensures
        forall|i: int|
            0 <= i < tok_acc(rest, cur).len() ==> is_token(#[trigger] tok_acc(rest, cur)[i]),
    decreases rest.len(),
{
    if rest.len() == 0 {
    } else if is_word_char(rest[0]) {
        let c2 = cur.push(lower_char(rest[0]));
        assert(97 <= lower_char(rest[0]) as int <= 122);
        assert(forall|i: int| 0 <= i < c2.len() ==> 97 <= #[trigger] c2[i] as int <= 122);
        lemma_tok_acc_wf(rest.drop_first(), c2);
        assert(tok_acc(rest, cur) == tok_acc(rest.drop_first(), c2));
    } else if cur.len() > 0 {
        lemma_tok_acc_wf(rest.drop_first(), Seq::empty());
        let r = tok_acc(rest, cur);
        let t = tok_acc(rest.drop_first(), Seq::empty());
        assert(is_token(cur));
        assert forall|i: int| 0 <= i < r.len() implies is_token(#[trigger] r[i]) by {
            if i == 0 {
                assert(r[0] == cur);
            } else {
                assert(r[i] == t[i - 1]);
            }
        }
    } else {
        lemma_tok_acc_wf(rest.drop_first(), Seq::empty());
        assert(tok_acc(rest, cur) == tok_acc(rest.drop_first(), Seq::empty()));
    }
}

/// Tokenize a character sequence into its normalized word tokens.
pub fn tokenize(chars: &Vec<char>) -> (r: Vec<Vec<char>>)
    ensures
        r.deep_view() == tokens_of(chars@),
{
    let mut out: Vec<Vec<char>> = Vec::new();
    let mut cur: Vec<char> = Vec::new();
    let mut i: usize = 0;
    proof {
        assert(chars@.skip(0) =~= chars@);
        assert(out.deep_view() + tok_acc(chars@, cur@) =~= tok_acc(chars@, Seq::<char>::empty()));
    }
    while i < chars.len()
        invariant
            i <= chars.len(),
            tokens_of(chars@) == out.deep_view() + tok_acc(chars@.skip(i as int), cur@),
        decreases chars.len() - i,
    {
        let c = chars[i];
        proof {
            assert(chars@.skip(i as int)[0] == c);
            assert(chars@.skip(i as int).drop_first() =~= chars@.skip(i as int + 1));
        }
        if is_word_char_exec(c) {
            let ghost old_cur = cur@;
            cur.push(lower_char_exec(c));
            proof {
                assert(tok_acc(chars@.skip(i as int), old_cur) == tok_acc(
                    chars@.skip(i as int + 1),
                    old_cur.push(lower_char(c)),
                ));
            }
        } else if cur.len() > 0 {
            let ghost old_out = out.deep_view();
            let ghost tok = cur@;
            out.push(cur);
            cur = Vec::new();
            proof {
                assert(tok_acc(chars@.skip(i as int), tok) == seq![tok] + tok_acc(
                    chars@.skip(i as int + 1),
                    Seq::<char>::empty(),
                ));
                assert(out.deep_view() =~~= old_out.push(tok));
                assert(old_out + (seq![tok] + tok_acc(chars@.skip(i as int + 1), Seq::empty()))
                    =~= old_out.push(tok) + tok_acc(chars@.skip(i as int + 1), Seq::empty()));
                assert(tokens_of(chars@) == out.deep_view() + tok_acc(
                    chars@.skip(i as int + 1),
                    cur@,
                ));
            }
        } else {
            proof {
                assert(cur@ =~= Seq::<char>::empty());
                assert(tok_acc(chars@.skip(i as int), cur@) == tok_acc(
                    chars@.skip(i as int + 1),
                    cur@,
                ));
            }
        }
        i = i + 1;
    }
    proof {
        assert(chars@.skip(chars@.len() as int) =~= Seq::<char>::empty());
    }
    if cur.len() > 0 {
        let ghost old_out = out.deep_view();
        let ghost tok = cur@;
        out.push(cur);
        proof {
            assert(out.deep_view() =~~= old_out.push(tok));
            assert(old_out + seq![tok] =~= old_out.push(tok));
        }
    } else {
        proof {
            assert(out.deep_view() + Seq::<Seq<char>>::empty() =~= out.deep_view());
        }
    }
    out
}

/// The characters of a string, in order.
pub fn chars_of(s: &str) -> (r: Vec<char>)
    ensures
        r@ == s@,
{
    let mut it = s.chars();
    let mut r: Vec<char> = Vec::new();
    loop
        invariant
            it.obeys_prophetic_iter_laws(),
            r@ + it.remaining() == s@,
        decreases s@.len() - r@.len(),
    {
        let ghost rem = it.remaining();
        match it.next() {
            Some(c) => {
                r.push(c);
                proof {
                    assert(r@ + it.remaining() =~= s@);
                }
            },
            None => {
                proof {
                    assert(r@ =~= s@);
                }
                return r;
            },
        }
    }
}

} // verus!
