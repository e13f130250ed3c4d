//! Character-level text utilities shared by the reconciler and the resolver:
//! path normalization, splitting, joining, and camel-case word separation.

use vstd::prelude::*;

verus! {

/// The containing directory of a path: everything before the last `/`.
/// A path without a `/` normalizes to `.`, the current directory.
pub open spec fn spec_dir_of(p: Seq<char>) -> Seq<char>
    decreases p.len(),
{
    if p.len() == 0 {
        seq!['.']
    } else if p.last() == '/' {
        p.drop_last()
    } else {
        spec_dir_of(p.drop_last())
    }
}

/// The containing directory of `p`, the normalized key under which the
/// reconciler groups files of one font family.
pub fn dir_of(p: &str) -> (r: String)
    ensures
        r@ == spec_dir_of(p@),
{
    let n = p.unicode_len();
    let mut i = n;
    proof {
        assert(p@.take(n as int) =~= p@);
    }
    loop
        invariant
            0 <= i <= n,
            n == p@.len(),
            spec_dir_of(p@) == spec_dir_of(p@.take(i as int)),
        decreases i,
    {
        if i == 0 {
            proof {
                reveal_strlit(".");
                assert(p@.take(0int) =~= Seq::<char>::empty());
                assert("."@ =~= seq!['.']);
            }
            return String::from_str(".");
        }
        let c = p.get_char(i - 1);
        if c == '/' {
            proof {
                assert(p@.take(i as int).last() == '/');
                assert(p@.take(i as int).drop_last() =~= p@.take(i - 1));
            }
            return String::from_str(p.substring_char(0, i - 1));
        }
        proof {
            assert(p@.take(i as int).last() != '/');
            assert(p@.take(i as int).drop_last() =~= p@.take(i - 1));
        }
        i = i - 1;
    }
}

/// Whether `v` already holds the string `k`, by character-wise equality.
pub fn contains_str(v: &Vec<String>, k: &String) -> (r: bool)
    ensures
        r == v.deep_view().contains(k@),
{
    let mut i: usize = 0;
    while i < v.len()
        invariant
            0 <= i <= v.deep_view().len(),
            v.deep_view().len() == v@.len(),
            forall|j: int| 0 <= j < i ==> v.deep_view()[j] != k@,
        decreases v.len() - i,
    {
        assert(v.deep_view()[i as int] == v@[i as int]@);
        if v[i].eq(k) {
            return true;
        }
        i += 1;
    }
    assert(forall|j: int| 0 <= j < v.deep_view().len() ==> v.deep_view()[j] != k@);
    false
}

/// The prefix of `s` before the first occurrence of `sep`, or all of `s`
/// when `sep` does not occur.
pub open spec fn spec_before(s: Seq<char>, sep: char) -> Seq<char>
    decreases s.len(),
{
    if s.len() == 0 {
        s
    } else if s.first() == sep {
        Seq::empty()
    } else {
        seq![s.first()] + spec_before(s.drop_first(), sep)
    }
}

proof fn lemma_before_take(s: Seq<char>, sep: char, i: int)
    requires
        0 <= i <= s.len(),
        forall|j: int| 0 <= j < i ==> s[j] != sep,
        i == s.len() || s[i] == sep,
    ensures
        spec_before(s, sep) == s.take(i),
    decreases s.len(),
{
    if s.len() == 0 {
        assert(s.take(0int) =~= s);
    } else if i == 0 {
        assert(s.take(0int) =~= Seq::<char>::empty());
    } else {
        let tail = s.drop_first();
        assert(forall|j: int| 0 <= j < i - 1 ==> tail[j] == s[j + 1]);
        lemma_before_take(tail, sep, i - 1);
        assert(seq![s.first()] + tail.take(i - 1) =~= s.take(i));
    }
}

/// The prefix of `s` before its first `sep`: the family name before a style
/// suffix, when `sep` is the style separator.
pub fn before(s: &str, sep: char) -> (r: String)
    ensures
        r@ == spec_before(s@, sep),
{
    let n = s.unicode_len();
    let mut i: usize = 0;
    while i < n
        invariant
            0 <= i <= n,
            n == s@.len(),
            forall|j: int| 0 <= j < i ==> s@[j] != sep,
        decreases n - i,
    {
        if s.get_char(i) == sep {
            proof {
                lemma_before_take(s@, sep, i as int);
            }
            return String::from_str(s.substring_char(0, i));
        }
        i += 1;
    }
    proof {
        lemma_before_take(s@, sep, n as int);
        assert(s@.take(n as int) =~= s@);
    }
    String::from_str(s)
}

/// Whether `c` is an ASCII capital letter, the camel-case word boundary.
pub open spec fn spec_is_upper(c: char) -> bool {
    'A' <= c && c <= 'Z'
}

/// Camel-case boundaries turned into spaces: a capital letter that is not
/// the first character starts a new space-separated word.
pub open spec fn spec_camel(s: Seq<char>) -> Seq<char>
    decreases s.len(),
{
    if s.len() == 0 {
        s
    } else {
        let pre = spec_camel(s.drop_last());
        if spec_is_upper(s.last()) && s.len() > 1 {
            pre + seq![' ', s.last()]
        } else {
            pre.push(s.last())
        }
    }
}

/// Separates the camel-case words of `s` with spaces.
pub fn camel_words(s: &str) -> (r: String)
    ensures
        r@ == spec_camel(s@),
{
    let n = s.unicode_len();
    let mut r = String::new();
    let mut i: usize = 0;
    proof {
        assert(s@.take(0int) =~= Seq::<char>::empty());
    }
    while i < n
        invariant
            0 <= i <= n,
            n == s@.len(),
            r@ == spec_camel(s@.take(i as int)),
        decreases n - i,
    {
        let ghost cur = s@.take(i + 1);
        proof {
            assert(cur.drop_last() =~= s@.take(i as int));
            assert(cur.last() == s@[i as int]);
        }
        let c = s.get_char(i);
        if i > 0 && 'A' <= c && c <= 'Z' {
            r.append(" ");
            proof {
                reveal_strlit(" ");
            }
        }
        let piece = s.substring_char(i, i + 1);
        proof {
            assert(piece@ =~= seq![s@[i as int]]);
        }
        r.append(piece);
        proof {
            assert(r@ =~= spec_camel(cur));
        }
        i += 1;
    }
    proof {
        assert(s@.take(n as int) =~= s@);
    }
    r
}

/// The space-separated tokens of `s`, empty tokens kept: splitting the
/// empty text gives one empty token.
pub open spec fn spec_tokens(s: Seq<char>) -> Seq<Seq<char>>
    decreases s.len(),
{
    if s.len() == 0 {
        seq![Seq::empty()]
    } else {
        let pre = spec_tokens(s.drop_last());
        if s.last() == ' ' {
            pre.push(Seq::empty())
        } else {
            pre.update(pre.len() - 1, pre.last().push(s.last()))
        }
    }
}

proof fn lemma_tokens_len(s: Seq<char>)
    ensures
        spec_tokens(s).len() >= 1,
    decreases s.len(),
{
    if s.len() > 0 {
        lemma_tokens_len(s.drop_last());
    }
}

/// Splits `s` on spaces into its tokens, empty tokens kept.
pub fn split_tokens(s: &str) -> (r: Vec<String>)
    ensures
        r.deep_view() == spec_tokens(s@),
{
    let n = s.unicode_len();
    let mut done: Vec<String> = Vec::new();
    let mut cur = String::new();
    let mut i: usize = 0;
    proof {
        assert(s@.take(0int) =~= Seq::<char>::empty());
        assert(done.deep_view().push(cur@) =~~= spec_tokens(s@.take(0int)));
    }
    while i < n
        invariant
            0 <= i <= n,
            n == s@.len(),
            done.deep_view().push(cur@) == spec_tokens(s@.take(i as int)),
        decreases n - i,
    {
        let ghost whole = s@.take(i + 1);
        proof {
            assert(whole.drop_last() =~= s@.take(i as int));
            assert(whole.last() == s@[i as int]);
            lemma_tokens_len(s@.take(i as int));
        }
        let c = s.get_char(i);
        if c == ' ' {
            done.push(cur);
            cur = String::new();
            proof {
                assert(done.deep_view().push(cur@) =~~= spec_tokens(whole));
            }
        } else {
            let piece = s.substring_char(i, i + 1);
            proof {
                assert(piece@ =~= seq![s@[i as int]]);
            }
            cur.append(piece);
            proof {
                assert(done.deep_view().push(cur@) =~~= spec_tokens(whole));
            }
        }
        i += 1;
    }
    proof {
        assert(s@.take(n as int) =~= s@);
    }
    done.push(cur);
    done
}

/// The tokens joined with a `+` between neighbours.
pub open spec fn spec_plus_join(toks: Seq<Seq<char>>) -> Seq<char>
    decreases toks.len(),
{
    if toks.len() == 0 {
        Seq::empty()
    } else if toks.len() == 1 {
        toks[0]
    } else {
        spec_plus_join(toks.drop_last()) + seq!['+'] + toks.last()
    }
}

/// Joins the first `k` of the tokens with `+` separators.
pub fn plus_join(toks: &Vec<String>, k: usize) -> (r: String)
    requires
        k <= toks@.len(),
    ensures
        r@ == spec_plus_join(toks.deep_view().take(k as int)),
{
    let mut r = String::new();
    let mut j: usize = 0;
    proof {
        assert(toks.deep_view().take(0int) =~= Seq::<Seq<char>>::empty());
    }
    while j < k
        invariant
            0 <= j <= k,
            k <= toks@.len(),
            toks@.len() == toks.deep_view().len(),
            r@ == spec_plus_join(toks.deep_view().take(j as int)),
        decreases k - j,
    {
        let ghost whole = toks.deep_view().take(j + 1);
        proof {
            assert(whole.drop_last() =~= toks.deep_view().take(j as int));
            assert(whole.last() == toks.deep_view()[j as int]);
            assert(toks.deep_view()[j as int] == toks@[j as int]@);
        }
        if j > 0 {
            r.append("+");
            proof {
                reveal_strlit("+");
            }
        }
        r.append(toks[j].as_str());
        proof {
            if whole.len() == 1 {
                assert(r@ =~= spec_plus_join(whole));
            } else {
                assert(r@ =~= spec_plus_join(whole));
            }
        }
        j += 1;
    }
    r
}

} // verus!
