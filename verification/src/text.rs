//! Word-level text handling: the naive single-space tokenization the
//! dispatcher applies to a command text, and its inverse, joining words with
//! single spaces. No shell semantics: no quoting, piping, or escapes.

use vstd::prelude::*;

verus! {

/// Relies on `String::push`: appends exactly the one character.
#[verifier::external_body]
pub(crate) fn push_char(s: &mut String, c: char)
    ensures
        final(s)@ == old(s)@.push(c),
{
    s.push(c)
}

/// Index of the first space character; `s.len()` when there is none.
pub open spec fn first_space(s: Seq<char>) -> nat
    decreases s.len(),
{
    if s.len() == 0 {
        0
    } else if s[0] == ' ' {
        0
    } else {
        1 + first_space(s.drop_first())
    }
}

pub proof fn lemma_first_space(s: Seq<char>)
    ensures
        first_space(s) <= s.len(),
        first_space(s) < s.len() ==> s[first_space(s) as int] == ' ',
        forall|j: int| 0 <= j < first_space(s) ==> s[j] != ' ',
    decreases s.len(),
{
    if s.len() > 0 && s[0] != ' ' {
        lemma_first_space(s.drop_first());
        assert(forall|j: int| 1 <= j < first_space(s) ==> s[j] == s.drop_first()[j - 1]);
    }
}

/// The words of `s`, split at every single space character. Consecutive
/// spaces yield empty words, and the empty text yields one empty word,
/// exactly as splitting on the one-character separator does.
pub open spec fn split_spaces(s: Seq<char>) -> Seq<Seq<char>>
    decreases s.len(),
{
    let f = first_space(s);
    if f >= s.len() {
        seq![s]
    } else {
        seq![s.subrange(0, f as int)] + split_spaces(s.subrange(f as int + 1, s.len() as int))
    }
}

/// Splits `s` at every space character.
pub fn split_cmd(s: &str) -> (r: Vec<String>)
    ensures
        r.deep_view() == split_spaces(s@),
{
    let len = s.unicode_len();
    let mut r: Vec<String> = Vec::new();
    let mut rs: usize = 0;
    proof {
        assert(s@.skip(0) =~= s@);
        assert(r.deep_view() + split_spaces(s@) =~= split_spaces(s@));
    }
    loop
        invariant_except_break
            len == s@.len(),
            rs <= len,
            r.deep_view() + split_spaces(s@.skip(rs as int)) == split_spaces(s@),
        ensures
            r.deep_view() == split_spaces(s@),
        decreases len - rs,
    {
        let ghost suffix = s@.skip(rs as int);
        let mut j: usize = rs;
        loop
            invariant_except_break
                len == s@.len(),
                rs <= j <= len,
                suffix == s@.skip(rs as int),
                forall|m: int| rs <= m < j ==> s@[m] != ' ',
            ensures
                rs <= j <= len,
                forall|m: int| rs <= m < j ==> s@[m] != ' ',
                j < len ==> s@[j as int] == ' ',
                first_space(suffix) == j - rs,
            decreases len - j,
        {
            if j == len {
                proof {
                    lemma_first_space(suffix);
                    if first_space(suffix) < suffix.len() {
                        assert(suffix[first_space(suffix) as int] == s@[first_space(suffix) + rs]);
                    }
                }
                break ;
            }
            let c = s.get_char(j);
            if c == ' ' {
                proof {
                    lemma_first_space(suffix);
                    assert(suffix[j - rs] == s@[j as int]);
                    assert(forall|m: int| 0 <= m < j - rs ==> suffix[m] == s@[m + rs]);
                    if first_space(suffix) < j - rs {
                        assert(suffix[first_space(suffix) as int] == s@[first_space(suffix) + rs]);
                    }
                }
                break ;
            }
            j = j + 1;
        }
        let word = s.substring_char(rs, j).to_owned();
        proof {
            assert(word@ =~= suffix.subrange(0, j - rs));
        }
        if j == len {
            let ghost r_before = r.deep_view();
            r.push(word);
            proof {
                assert(first_space(suffix) >= suffix.len());
                assert(word@ =~= suffix);
                assert(split_spaces(suffix) =~= seq![suffix]);
                assert(r.deep_view() =~= r_before + seq![suffix]);
                assert(r.deep_view() =~= split_spaces(s@));
            }
            return r;
        }
        let ghost r_before = r.deep_view();
        r.push(word);
        proof {
            assert(first_space(suffix) == j - rs && first_space(suffix) < suffix.len());
            assert(split_spaces(suffix) == seq![suffix.subrange(0, j - rs)] + split_spaces(
                suffix.subrange(j - rs + 1, suffix.len() as int),
            ));
            assert(suffix.subrange(j - rs + 1, suffix.len() as int) =~= s@.skip(j + 1));
            assert(r.deep_view() =~= r_before + seq![suffix.subrange(0, j - rs)]);
            assert(r.deep_view() + split_spaces(s@.skip(j + 1)) =~= r_before + split_spaces(
                suffix,
            ));
        }
        rs = j + 1;
    }
    r
}

/// The words joined with single spaces between them: how a new command's
/// text is built from its words.
pub open spec fn join_spaces(ws: Seq<Seq<char>>) -> Seq<char>
    decreases ws.len(),
{
    if ws.len() == 0 {
        Seq::<char>::empty()
    } else {
        ws[0] + join_rest(ws.drop_first())
    }
}

/// The tail of a join: each word preceded by one space.
pub open spec fn join_rest(ws: Seq<Seq<char>>) -> Seq<char>
    decreases ws.len(),
{
    if ws.len() == 0 {
        Seq::<char>::empty()
    } else {
        seq![' '] + ws[0] + join_rest(ws.drop_first())
    }
}

/// Joins the words with single spaces.
pub fn join_words(words: &Vec<String>) -> (r: String)
    ensures
        r@ == join_spaces(words.deep_view()),
{
    let ghost dv = words.deep_view();
    let n = words.len();
    if n == 0 {
        let r = String::new();
        proof {
            assert(r@ =~= join_spaces(dv));
        }
        return r;
    }
    let mut r = words[0].clone();
    let mut i: usize = 1;
    proof {
        assert(dv.skip(1)[0] == dv[1] || dv.skip(1).len() == 0);
        assert(r@ + join_rest(dv.skip(1)) =~= join_spaces(dv)) by {
            assert(dv.drop_first() =~= dv.skip(1));
        }
    }
    while i < n
        invariant
            n == words@.len(),
            dv == words.deep_view(),
            1 <= i <= n,
            r@ + join_rest(dv.skip(i as int)) == join_spaces(dv),
        decreases n - i,
    {
        let ghost r_before = r@;
        push_char(&mut r, ' ');
        r.append(words[i].as_str());
        proof {
            let tail = dv.skip(i as int);
            assert(tail[0] == dv[i as int]);
            assert(tail.drop_first() =~= dv.skip(i as int + 1));
            assert(join_rest(tail) == seq![' '] + tail[0] + join_rest(tail.drop_first()));
            assert(r@ =~= r_before + seq![' '] + dv[i as int]);
            assert(r@ + join_rest(dv.skip(i as int + 1)) =~= r_before + join_rest(tail));
        }
        i = i + 1;
    }
    proof {
        assert(dv.skip(n as int) =~= Seq::<Seq<char>>::empty());
        assert(r@ + join_rest(dv.skip(n as int)) =~= r@);
    }
    r
}

} // verus!
