//! Text preparation for the embedding engine: filtering to alphabetic
//! characters, lowercasing, and splitting on a separator character, each
//! against an exact specification.
use vstd::prelude::*;

verus! {

/// Relies on std's `FromIterator<char> for String`: collecting characters
/// yields the string of exactly those characters, in order.
#[verifier::external_body]
pub fn chars_to_string(v: &Vec<char>) -> (r: String)
    ensures
        r@ == v@,
{
    v.iter().collect()
}

/// Whether std classifies the character as alphabetic; the result depends on
/// the character alone.
pub uninterp spec fn is_alpha(c: char) -> bool;

/// Relies on std's `char::is_alphabetic`.
pub assume_specification[ char::is_alphabetic ](c: char) -> (r: bool)
    ensures
        r == is_alpha(c),
;

/// What std's `str::to_lowercase` returns; the result depends on the
/// characters alone.
pub uninterp spec fn lower_of(s: Seq<char>) -> Seq<char>;

/// Relies on std's `str::to_lowercase`: the result is a function of the
/// input characters, and an empty input stays empty.
#[verifier::external_body]
pub fn lowercase(s: &str) -> (r: String)
    ensures
        r@ == lower_of(s@),
        s@.len() == 0 ==> r@.len() == 0,
{
    s.to_lowercase()
}

/// The characters the tokenizer keeps: alphabetic ones and the blank.
pub open spec fn keep_char(c: char) -> bool {
    is_alpha(c) || c == ' '
}

/// `s` restricted to kept characters, in order.
pub open spec fn kept(s: Seq<char>) -> Seq<char>
    decreases s.len(),
{
    if s.len() == 0 {
        Seq::empty()
    } else if keep_char(s.last()) {
        kept(s.drop_last()).push(s.last())
    } else {
        kept(s.drop_last())
    }
}

/// Drop every character that is neither alphabetic nor a blank.
pub fn filter_text(s: &str) -> (r: String)
    ensures
        r@ == kept(s@),
{
    let n = s.unicode_len();
    let mut acc: Vec<char> = Vec::new();
    let mut i: usize = 0;
    proof {
        assert(s@.subrange(0, 0) =~= Seq::<char>::empty());
    }
    while i < n
        invariant
            0 <= i <= n,
            n == s@.len(),
            acc@ == kept(s@.subrange(0, i as int)),
        decreases n - i,
    {
        let c = s.get_char(i);
        proof {
            let t = s@.subrange(0, i as int + 1);
            assert(t.drop_last() =~= s@.subrange(0, i as int));
            assert(t.last() == s@[i as int]);
        }
        if c.is_alphabetic() || c == ' ' {
            acc.push(c);
        }
        i = i + 1;
    }
    proof {
        assert(s@.subrange(0, n as int) =~= s@);
    }
    chars_to_string(&acc)
}

/// Length of the run of non-separator characters starting at `i`.
pub open spec fn run_len(s: Seq<char>, i: int, sep: char) -> int
    decreases s.len() - i,
{
    if i < 0 || i >= s.len() || s[i] == sep {
        0
    } else {
        1 + run_len(s, i + 1, sep)
    }
}

pub proof fn lemma_run_len_bounds(s: Seq<char>, i: int, sep: char)
    requires
        0 <= i <= s.len(),
    ensures
        0 <= run_len(s, i, sep) <= s.len() - i,
    decreases s.len() - i,
{
    if i < s.len() && s[i] != sep {
        lemma_run_len_bounds(s, i + 1, sep);
    }
}

/// The maximal non-separator run starting at `i` ends exactly where a
/// separator or the end of the string stands.
pub proof fn lemma_run_len_exact(s: Seq<char>, i: int, j: int, sep: char)
    requires
        0 <= i <= j <= s.len(),
        forall|q: int| i <= q < j ==> s[q] != sep,
        j == s.len() || s[j] == sep,
    ensures
        run_len(s, i, sep) == j - i,
    decreases j - i,
{
    if i == j {
    } else {
        lemma_run_len_exact(s, i + 1, j, sep);
    }
}

/// The fields of `s` from position `i` on: maximal nonempty runs between
/// separators.
pub open spec fn split_from(s: Seq<char>, i: int, sep: char) -> Seq<Seq<char>>
    decreases s.len() - i, run_len(s, i, sep) + 1,
{
    if i < 0 || i >= s.len() {
        Seq::empty()
    } else if s[i] == sep {
        split_from(s, i + 1, sep)
    } else {
        let r = run_len(s, i, sep);
        if 1 <= r <= s.len() - i {
            Seq::<Seq<char>>::empty().push(s.subrange(i, i + r)) + split_from(s, i + r, sep)
        } else {
            Seq::empty()
        }
    }
}

/// All fields of `s`, split on `sep`.
pub open spec fn fields_of(s: Seq<char>, sep: char) -> Seq<Seq<char>> {
    split_from(s, 0, sep)
}

/// Split on a separator character: the returned strings are exactly the
/// maximal nonempty runs between separators, in order.
pub fn split_chars(s: &str, sep: char) -> (r: Vec<String>)
    ensures
        r@.map_values(|t: String| t@) == fields_of(s@, sep),
{
    let n = s.unicode_len();
    let mut toks: Vec<String> = Vec::new();
    let mut i: usize = 0;
    proof {
        assert(toks@.map_values(|t: String| t@) + split_from(s@, 0, sep) =~= split_from(
            s@,
            0,
            sep,
        ));
    }
    while i < n
        invariant
            0 <= i <= n,
            n == s@.len(),
            fields_of(s@, sep) == toks@.map_values(|t: String| t@) + split_from(
                s@,
                i as int,
                sep,
            ),
        decreases n - i,
    {
        if s.get_char(i) == sep {
            i = i + 1;
        } else {
            let start = i;
            let mut j = i + 1;
            while j < n && s.get_char(j) != sep
                invariant
                    0 <= start < j <= n,
                    n == s@.len(),
                    s@[start as int] != sep,
                    forall|q: int| start <= q < j ==> s@[q] != sep,
                decreases n - j,
            {
                j = j + 1;
            }
            let tok = s.substring_char(start, j);
            let ghost old_toks = toks@;
            toks.push(tok.to_owned());
            proof {
                lemma_run_len_exact(s@, start as int, j as int, sep);
                assert(split_from(s@, start as int, sep) == Seq::<Seq<char>>::empty().push(
                    s@.subrange(start as int, j as int),
                ) + split_from(s@, j as int, sep));
                assert(toks@.map_values(|t: String| t@) =~= old_toks.map_values(
                    |t: String| t@,
                ).push(s@.subrange(start as int, j as int)));
                assert(old_toks.map_values(|t: String| t@) + (Seq::<Seq<char>>::empty().push(
                    s@.subrange(start as int, j as int),
                ) + split_from(s@, j as int, sep)) =~= toks@.map_values(|t: String| t@)
                    + split_from(s@, j as int, sep));
            }
            i = j;
        }
    }
    proof {
        assert(toks@.map_values(|t: String| t@) + split_from(s@, n as int, sep) =~= toks@
            .map_values(|t: String| t@));
    }
    toks
}

} // verus!
