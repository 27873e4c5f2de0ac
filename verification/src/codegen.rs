//! Default short-code generation: one letter per word of the new command,
//! then `'1'` appended as often as needed to dodge the codes already in use.

use vstd::prelude::*;

use crate::text::push_char;

verus! {

/// The first character of a word that is not a hyphen: the letter the word
/// contributes to a generated code. A word of hyphens alone contributes none.
pub open spec fn first_letter(w: Seq<char>) -> Option<char>
    decreases w.len(),
{
    if w.len() == 0 {
        None
    } else if w[0] != '-' {
        Some(w[0])
    } else {
        first_letter(w.drop_first())
    }
}

/// The candidate code: the first letters of the words, in word order.
pub open spec fn candidate_code(ws: Seq<Seq<char>>) -> Seq<char>
    decreases ws.len(),
{
    if ws.len() == 0 {
        Seq::<char>::empty()
    } else {
        match first_letter(ws[0]) {
            Some(c) => seq![c] + candidate_code(ws.drop_first()),
            None => candidate_code(ws.drop_first()),
        }
    }
}

/// `k` repetitions of the disambiguating character `'1'`.
pub open spec fn ones(k: nat) -> Seq<char> {
    Seq::new(k, |i: int| '1')
}

/// What `mnemonic` returns: the candidate code with the least number of
/// `'1'`s appended that makes it miss every code in `existing`.
pub open spec fn is_generated_code(
    words: Seq<Seq<char>>,
    existing: Seq<Seq<char>>,
    r: Seq<char>,
) -> bool {
    &&& !existing.contains(r)
    &&& exists|k: nat|
        {
            &&& r == candidate_code(words) + #[trigger] ones(k)
            &&& forall|j: nat|
                j < k ==> existing.contains(candidate_code(words) + #[trigger] ones(j))
        }
}

/// The longest code length in `existing`.
pub open spec fn max_code_len(ss: Seq<Seq<char>>) -> nat
    decreases ss.len(),
{
    if ss.len() == 0 {
        0
    } else {
        let m = max_code_len(ss.drop_first());
        if ss[0].len() > m {
            ss[0].len()
        } else {
            m
        }
    }
}

proof fn lemma_max_code_len(ss: Seq<Seq<char>>, x: Seq<char>)
    requires
        ss.contains(x),
    ensures
        x.len() <= max_code_len(ss),
    decreases ss.len(),
{
    let w = choose|i: int| 0 <= i < ss.len() && ss[i] == x;
    if w > 0 {
        assert(ss.drop_first()[w - 1] == x);
        lemma_max_code_len(ss.drop_first(), x);
    }
}

/// Whether `code` is among `existing`.
fn contains_code(existing: &Vec<String>, code: &String) -> (r: bool)
    ensures
        r == existing.deep_view().contains(code@),
{
    let n = existing.len();
    let mut i: usize = 0;
    while i < n
        invariant
            n == existing@.len(),
            i <= n,
            forall|j: int| 0 <= j < i ==> existing.deep_view()[j] != code@,
        decreases n - i,
    {
        if existing[i] == *code {
            proof {
                assert(existing.deep_view()[i as int] == code@);
            }
            return true;
        }
        i = i + 1;
    }
    proof {
        if existing.deep_view().contains(code@) {
            let w = choose|j: int|
                0 <= j < existing.deep_view().len() && existing.deep_view()[j] == code@;
            assert(existing.deep_view()[w] != code@);
        }
    }
    false
}

/// Generates the default code for the command made of `words`: the first
/// non-hyphen letter of each word, then `'1'` appended until the code misses
/// every code in `existing`. The empty candidate is a legal outcome when
/// every word is empty or hyphens alone.
pub fn mnemonic(v: &[String], existing: &Vec<String>) -> (r: String)
    ensures
        is_generated_code(v.deep_view(), existing.deep_view(), r@),
{
    let ghost dv = v.deep_view();
    let mut cand = String::new();
    let wn = v.len();
    let mut i: usize = 0;
    proof {
        assert(dv.skip(0) =~= dv);
    }
    while i < wn
        invariant
            wn == v@.len(),
            dv == v.deep_view(),
            i <= wn,
            cand@ + candidate_code(dv.skip(i as int)) == candidate_code(dv),
        decreases wn - i,
    {
        let w: &String = &v[i];
        let wl = w.as_str().unicode_len();
        let mut letter: Option<char> = None;
        let mut j: usize = 0;
        proof {
            assert(w@.skip(0) =~= w@);
        }
        loop
            invariant_except_break
                wl == w@.len(),
                j <= wl,
                letter is None,
                first_letter(w@) == first_letter(w@.skip(j as int)),
            ensures
                match letter {
                    Some(c) => first_letter(w@) == Some(c),
                    None => first_letter(w@) is None,
                },
            decreases wl - j,
        {
            if j == wl {
                break ;
            }
            let c = w.as_str().get_char(j);
            proof {
                assert(w@.skip(j as int)[0] == w@[j as int]);
            }
            if c != '-' {
                letter = Some(c);
                break ;
            }
            proof {
                assert(w@.skip(j as int).drop_first() =~= w@.skip(j as int + 1));
            }
            j = j + 1;
        }
        proof {
            assert(dv.skip(i as int)[0] == dv[i as int]);
            assert(dv[i as int] == w@);
            assert(dv.skip(i as int).drop_first() =~= dv.skip(i as int + 1));
        }
        match letter {
            Some(c) => {
                let ghost cand_before = cand@;
                push_char(&mut cand, c);
                proof {
                    assert(cand@ =~= cand_before + seq![c]);
                    assert(cand_before + (seq![c] + candidate_code(dv.skip(i as int + 1))) =~= (
                    cand_before + seq![c]) + candidate_code(dv.skip(i as int + 1)));
                }
            },
            None => {},
        }
        i = i + 1;
    }
    proof {
        assert(dv.skip(wn as int) =~= Seq::<Seq<char>>::empty());
        assert(cand@ + candidate_code(dv.skip(wn as int)) =~= cand@);
        assert(cand@ == candidate_code(dv));
    }
    let ghost cc = cand@;
    let ghost ex = existing.deep_view();
    let mut n = cand;
    let ghost mut k: nat = 0;
    proof {
        assert(n@ =~= cc + ones(0));
    }
    loop
        invariant_except_break
            ex == existing.deep_view(),
            cc == candidate_code(dv),
            n@ == cc + ones(k),
            n@.len() == cc.len() + k,
            forall|j: nat| j < k ==> ex.contains(cc + #[trigger] ones(j)),
            k > 0 ==> cc.len() + k - 1 <= max_code_len(ex),
        ensures
            is_generated_code(dv, ex, n@),
        decreases max_code_len(ex) + 2 - k,
    {
        if !contains_code(existing, &n) {
            proof {
                assert(n@ == cc + ones(k));
                assert(is_generated_code(dv, ex, n@));
            }
            break ;
        }
        proof {
            lemma_max_code_len(ex, n@);
            assert(cc.len() + k <= max_code_len(ex));
        }
        push_char(&mut n, '1');
        proof {
            assert(n@ =~= cc + ones(k + 1));
            k = k + 1nat;
        }
    }
    n
}

} // verus!
